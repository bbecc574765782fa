//! Where the midtones stretch lands the background.

use super::curve::{denominator, is_balance, lemma_cancel, lemma_positive, lemma_quotient, midtones};
use super::exact::{
    denotes, into_unit, is_exact, lemma_exact_binary, lemma_exact_product, lemma_exact_quotient,
    lemma_exact_ratio, lemma_exact_unit, lemma_exact_whole,
};
use super::exchange::{greater, lemma_exact_most, lemma_lit_is_picked, lit_of};
use super::order::{
    are_numbers, is_percentile_of, keys_follow, lemma_median_is_middle,
    lemma_percentiles_are_exact, rounds_exactly,
};
use super::peaks::lemma_is_positive;
use super::reals::product;
use super::restoring::{lemma_exact_size, size_of};
use super::surfaces::{has_only_numbers, is_middle};
use crate::arith::{
    Arithmetic, Binary, Formula, Test, binary_answers, clamp_answers, decides, evals,
    test_answers, whole,
};
use crate::plane::{largest_of, picked};
use crate::stretch::{
    MtfStats, are_inside, are_linked_stats, are_positive, are_stats, are_stats_by, balance,
    deviation, is_channel_solution_by, is_floored, is_inside, is_linked_solution_by, is_lit,
    is_midtone, residual_of, shadowed,
};
use vstd::prelude::*;

verus! {

// ---------------------------------------------------------------------------
// The balance
// ---------------------------------------------------------------------------

/// The denominator of a curve inside the unit range is positive.
#[verifier::spinoff_prover]
proof fn lemma_denominator_positive(m: real, x: real)
    requires
        (0 as real) < m < 1 as real,
        (0 as real) < x < 1 as real,
    ensures
        denominator(m, x) > 0 as real,
{
    lemma_positive(m, (1 as real) - x);
    lemma_positive((1 as real) - m, x);
}

/// The rest of a share.
proof fn lemma_rest_of_share(b: real, x: real, m: real, e: real)
    by (nonlinear_arith)
    requires
        e == b * ((1 as real) - x) + ((1 as real) - b) * x,
        m * e == ((1 as real) - b) * x,
    ensures
        ((1 as real) - m) * e == b * ((1 as real) - x),
{
}

/// The denominator of the curve of a share.
proof fn lemma_denominator_of_share(b: real, x: real, m: real, e: real)
    by (nonlinear_arith)
    requires
        m * e == ((1 as real) - b) * x,
        ((1 as real) - m) * e == b * ((1 as real) - x),
    ensures
        (m * ((1 as real) - x) + ((1 as real) - m) * x) * e == x * ((1 as real) - x),
{
}

/// Two products with one value.
proof fn lemma_landed(b: real, x: real, m: real, e: real, d: real, y: real)
    by (nonlinear_arith)
    requires
        y * d == ((1 as real) - m) * x,
        d * e == x * ((1 as real) - x),
        ((1 as real) - m) * e == b * ((1 as real) - x),
    ensures
        y * (x * ((1 as real) - x)) == b * (x * ((1 as real) - x)),
{
}

/// A number in the unit range, neither end.
pub open spec fn is_inner(a: real) -> bool {
    (0 as real) < a < 1 as real
}

/// The curve of the balance that the curve of `b` gives for `x` sends `x` to
/// `b`.
#[verifier::spinoff_prover]
pub proof fn lemma_balance_lands(b: real, x: real)
    requires
        is_inner(b),
        is_inner(x),
        is_balance(midtones(b, x)),
    ensures
        midtones(midtones(b, x), x) == b,
{
    let m = midtones(b, x);
    let e = denominator(b, x);
    let d = denominator(m, x);
    let y = midtones(m, x);
    lemma_denominator_positive(b, x);
    lemma_quotient(((1 as real) - b) * x, e);
    lemma_rest_of_share(b, x, m, e);
    lemma_denominator_of_share(b, x, m, e);
    lemma_inner_balance(m);
    lemma_denominator_positive(m, x);
    lemma_quotient(((1 as real) - m) * x, d);
    lemma_landed(b, x, m, e, d, y);
    lemma_positive(x, (1 as real) - x);
    lemma_cancel(y, b, x * ((1 as real) - x));
}

/// A balance lies inside the unit range.
proof fn lemma_inner_balance(m: real)
    requires
        is_balance(m),
    ensures
        is_inner(m),
{
}

/// The formula of the balance is the curve of the background at the median.
proof fn lemma_balance_is_curve(b: real, x: real, n: real, d: real, e: real)
    by (nonlinear_arith)
    requires
        n == x * (b - (1 as real)),
        d == (2 as real) * b * x - b - x,
        e == b * ((1 as real) - x) + ((1 as real) - b) * x,
        e > 0 as real,
    ensures
        d == -e,
        n == -(((1 as real) - b) * x),
        n / d == ((1 as real) - b) * x / e,
{
}

/// The midtone lands a background at `median` on the target: its curve sends
/// the one to the other, unless that takes a balance beyond its limits.
#[verifier::spinoff_prover]
pub proof fn lemma_midtone_lands<T, A: Arithmetic<T>>(
    ops: &A,
    val: spec_fn(T) -> real,
    median: T,
    bg_percent: T,
    midtone: T,
)
    requires
        is_exact(ops, val),
        is_inner(val(median)),
        is_inner(val(bg_percent)),
        is_balance(midtones(val(bg_percent), val(median))),
        is_midtone(ops, median, bg_percent, midtone),
    ensures
        val(midtone) == midtones(val(bg_percent), val(median)),
        midtones(val(midtone), val(median)) == val(bg_percent),
{
    let (b, x) = (val(bg_percent), val(median));
    let (between, lit) = choose|between: bool, lit: bool|
        is_inside(ops, median, between) && #[trigger] is_lit(ops, between, bg_percent, lit)
            && if lit {
            evals(ops, balance(median, bg_percent), midtone)
        } else {
            evals(ops, Formula::Ratio(1, 2), midtone)
        };
    lemma_inside_value(ops, val, median, between);
    assert(between);
    lemma_is_positive(ops, val, bg_percent);
    assert(lit);
    lemma_balance_value(ops, val, median, bg_percent, midtone);
    lemma_balance_lands(b, x);
}

/// The curve of `m` sends `x` to `b`, where both are inside the unit range and
/// the balance that it takes is within its limits.
#[verifier::opaque]
pub open spec fn is_landed(m: real, x: real, b: real) -> bool {
    is_inner(x) && is_inner(b) && is_balance(midtones(b, x)) ==> midtones(m, x) == b
}

/// The midtone lands a background on the target.
#[verifier::spinoff_prover]
pub proof fn lemma_midtone_is_landed<T, A: Arithmetic<T>>(
    ops: &A,
    val: spec_fn(T) -> real,
    median: T,
    bg_percent: T,
    midtone: T,
)
    requires
        is_exact(ops, val),
        is_midtone(ops, median, bg_percent, midtone),
    ensures
        is_landed(val(midtone), val(median), val(bg_percent)),
{
    reveal(is_landed);
    if is_inner(val(median)) && is_inner(val(bg_percent)) && is_balance(
        midtones(val(bg_percent), val(median)),
    ) {
        lemma_midtone_lands(ops, val, median, bg_percent, midtone);
    }
}

/// The question whether a sample lies strictly between 0 and 1.
proof fn lemma_inside_value<T, A: Arithmetic<T>>(
    ops: &A,
    val: spec_fn(T) -> real,
    v: T,
    r: bool,
)
    requires
        is_exact(ops, val),
        is_inside(ops, v, r),
    ensures
        r == is_inner(val(v)),
{
    let p = choose|positive: bool| #[trigger]
        decides(ops, Test::Less, whole(0), Formula::Given(v), positive) && if positive {
            decides(ops, Test::Less, Formula::Given(v), whole(1), r)
        } else {
            !r
        };
    lemma_is_positive(ops, val, v);
    if p {
        lemma_exact_whole(ops, val, 1);
        let (x, y) = choose|x: T, y: T|
            evals(ops, Formula::Given(v), x) && evals(ops, whole(1), y)
                && #[trigger] test_answers(ops, Test::Less, x, y, r);
    }
}

/// The balance in numbers.
#[verifier::spinoff_prover]
proof fn lemma_balance_value<T, A: Arithmetic<T>>(
    ops: &A,
    val: spec_fn(T) -> real,
    median: T,
    bg_percent: T,
    midtone: T,
)
    requires
        is_exact(ops, val),
        is_inner(val(median)),
        is_inner(val(bg_percent)),
        is_balance(midtones(val(bg_percent), val(median))),
        evals(ops, balance(median, bg_percent), midtone),
    ensures
        val(midtone) == midtones(val(bg_percent), val(median)),
{
    let (b, x) = (val(bg_percent), val(median));
    let (m, g) = (Formula::Given(median), Formula::Given(bg_percent));
    let one = 1u64 as int as real;
    let two = 2u64 as int as real;
    lemma_exact_whole(ops, val, 1);
    lemma_exact_whole(ops, val, 2);
    lemma_exact_binary(ops, val, Binary::Minus, g, whole(1), b, one);
    let above = m.times(g.minus(whole(1)));
    lemma_exact_binary(ops, val, Binary::Times, m, g.minus(whole(1)), x, b - one);
    lemma_exact_binary(ops, val, Binary::Times, whole(2), g, two, b);
    let twice = whole(2).times(g).times(m);
    lemma_exact_binary(ops, val, Binary::Times, whole(2).times(g), m, two * b, x);
    lemma_exact_binary(ops, val, Binary::Minus, twice, g, two * b * x, b);
    let below = twice.minus(g).minus(m);
    lemma_exact_binary(ops, val, Binary::Minus, twice.minus(g), m, two * b * x - b, x);
    let (n, d) = (x * (b - one), two * b * x - b - x);
    let e = denominator(b, x);
    lemma_denominator_positive(b, x);
    lemma_balance_is_curve(b, x, n, d, e);
    lemma_exact_binary(ops, val, Binary::Over, above, below, n, d);
    let f = above.over(below);
    let (low, high) = (Formula::<T>::Ratio(1, 10_000), Formula::<T>::Ratio(9_999, 10_000));
    lemma_exact_ratio(ops, val, 1, 10_000);
    lemma_exact_ratio(ops, val, 9_999, 10_000);
    let (u, l, h) = choose|u: T, l: T, h: T|
        evals(ops, f, u) && evals(ops, low, l) && evals(ops, high, h) && #[trigger] clamp_answers(
            ops,
            u,
            l,
            h,
            midtone,
        );
    assert(val(u) == midtones(b, x));
}

// ---------------------------------------------------------------------------
// The statistics
// ---------------------------------------------------------------------------

/// The samples strictly between 0 and 1, in order.
pub open spec fn inner_of<T>(val: spec_fn(T) -> real, s: Seq<T>) -> Seq<T>
    decreases s.len(),
{
    if s.len() == 0 {
        Seq::empty()
    } else if is_inner(val(s.last())) {
        inner_of(val, s.drop_last()).push(s.last())
    } else {
        inner_of(val, s.drop_last())
    }
}

/// What the flags of the samples strictly between 0 and 1 pick.
proof fn lemma_inner_is_picked<T, A: Arithmetic<T>>(
    ops: &A,
    val: spec_fn(T) -> real,
    data: Seq<T>,
    flags: Seq<bool>,
    n: int,
)
    requires
        is_exact(ops, val),
        are_inside(ops, data, flags),
        0 <= n <= data.len(),
    ensures
        picked(data.take(n), flags) == inner_of(val, data.take(n)),
    decreases n,
{
    if n > 0 {
        lemma_inner_is_picked(ops, val, data, flags, n - 1);
        assert(data.take(n).drop_last() =~= data.take(n - 1));
        assert(is_inside(ops, data[n - 1], flags[n - 1]));
        lemma_inside_value(ops, val, data[n - 1], flags[n - 1]);
    }
}

/// `quartile`, `median` and `spread` are the lower quartile and the median of
/// the numbers that samples stand for, and the median of their distances
/// `devs` from the latter.
pub open spec fn are_measures<T>(
    val: spec_fn(T) -> real,
    s: Seq<T>,
    devs: Seq<T>,
    quartile: real,
    median: real,
    spread: real,
) -> bool {
    &&& is_percentile_of(val, s, 25 as real, quartile)
    &&& is_percentile_of(val, s, 50 as real, median)
    &&& devs.len() == s.len()
    &&& forall|i: int| 0 <= i < s.len() ==> val(#[trigger] devs[i]) == size_of(val(s[i]) - median)
    &&& is_middle(val, devs, spread)
}

/// The statistics of samples in numbers.
pub proof fn lemma_stats_are_measures<T, A: Arithmetic<T>>(
    ops: &A,
    val: spec_fn(T) -> real,
    s: Seq<T>,
    stats: MtfStats<T>,
) -> (devs: Seq<T>)
    requires
        is_exact(ops, val),
        keys_follow(ops, val),
        rounds_exactly(ops, val),
        has_only_numbers(ops),
        1 <= s.len() <= usize::MAX,
        are_stats(ops, s, stats),
    ensures
        are_measures(val, s, devs, val(stats.p25), val(stats.median), val(stats.mad)),
        stats.count == s.len(),
{
    let (quarter, half, devs) = choose|quarter: T, half: T, deviations: Seq<T>| #[trigger]
        are_stats_by(ops, s, quarter, half, deviations, stats);
    lemma_exact_whole(ops, val, 25);
    lemma_exact_whole(ops, val, 50);
    assert(are_numbers(ops, s));
    lemma_percentiles_are_exact(ops, val, s, quarter, half, stats.p25, stats.median);
    assert forall|i: int| 0 <= i < s.len() implies val(#[trigger] devs[i]) == size_of(
        val(s[i]) - val(stats.median),
    ) by {
        let (f, g) = (Formula::Given(s[i]), Formula::Given(stats.median));
        lemma_exact_binary(ops, val, Binary::Minus, f, g, val(s[i]), val(stats.median));
        lemma_exact_size(ops, val, f.minus(g), val(s[i]) - val(stats.median));
        assert(evals(ops, deviation(stats.median)(s[i]), devs[i]));
    }
    lemma_median_is_middle(ops, val, devs, stats.mad);
    devs
}

/// The statistics of a linked channel are those of its positive samples, with a
/// spread of at least a millionth.
pub proof fn lemma_linked_stats_are_measures<T, A: Arithmetic<T>>(
    ops: &A,
    val: spec_fn(T) -> real,
    plane: Seq<T>,
    stats: MtfStats<T>,
) -> (r: (Seq<T>, real))
    requires
        is_exact(ops, val),
        keys_follow(ops, val),
        rounds_exactly(ops, val),
        has_only_numbers(ops),
        lit_of(val, plane).len() >= 1,
        plane.len() <= usize::MAX,
        are_linked_stats(ops, plane, stats),
    ensures
        are_measures(
            val,
            lit_of(val, plane),
            r.0,
            val(stats.p25),
            val(stats.median),
            r.1,
        ),
        val(stats.mad) == greater(r.1, (1 as real) / (1_000_000 as real)),
        stats.count == lit_of(val, plane).len(),
{
    let flags = choose|flags: Seq<bool>| #[trigger]
        are_positive(ops, plane, flags) && if picked(plane, flags).len() == 0 {
            &&& evals(ops, whole(0), stats.median)
            &&& evals(ops, whole(0), stats.p25)
            &&& evals(ops, Formula::Ratio(1, 100), stats.mad)
            &&& stats.count == 0
        } else {
            exists|raw: MtfStats<T>| #[trigger]
                are_stats(ops, picked(plane, flags), raw) && is_floored(ops, raw, stats)
        };
    lemma_lit_is_picked(ops, val, plane, flags, plane.len() as int);
    assert(plane.take(plane.len() as int) =~= plane);
    lemma_lit_length(val, plane);
    let raw = choose|raw: MtfStats<T>| #[trigger]
        are_stats(ops, picked(plane, flags), raw) && is_floored(ops, raw, stats);
    let devs = lemma_stats_are_measures(ops, val, lit_of(val, plane), raw);
    lemma_exact_ratio(ops, val, 1, 1_000_000);
    let e = (1u64 as int as real) / (1_000_000u64 as int as real);
    lemma_exact_most(
        ops,
        val,
        Formula::Given(raw.mad),
        Formula::Ratio(1, 1_000_000),
        val(raw.mad),
        e,
    );
    (devs, val(raw.mad))
}

/// There are no more positive samples than samples.
proof fn lemma_lit_length<T>(val: spec_fn(T) -> real, s: Seq<T>)
    ensures
        lit_of(val, s).len() <= s.len(),
    decreases s.len(),
{
    if s.len() > 0 {
        lemma_lit_length(val, s.drop_last());
    }
}

/// There are no more samples inside the unit range than samples.
proof fn lemma_inner_length<T>(val: spec_fn(T) -> real, s: Seq<T>)
    ensures
        inner_of(val, s).len() <= s.len(),
    decreases s.len(),
{
    if s.len() > 0 {
        lemma_inner_length(val, s.drop_last());
    }
}

// ---------------------------------------------------------------------------
// The shadows
// ---------------------------------------------------------------------------

/// What a channel keeps of its background: from the lower quartile to the
/// median, and `sigma` times 1.4826 spreads more.
pub open spec fn kept_of<T>(val: spec_fn(T) -> real, stats: MtfStats<T>, sigma: real) -> real {
    val(stats.median) - val(stats.p25) + product(
        product(sigma, (14_826 as real) / (10_000 as real)),
        val(stats.mad),
    )
}

/// The smallest residual is not above that of any channel, and it is that of one
/// of them, unless it is the infinity that the search starts from.
proof fn lemma_residual_is_least<T, A: Arithmetic<T>>(
    ops: &A,
    val: spec_fn(T) -> real,
    stats: Seq<MtfStats<T>>,
    sigma: real,
    k: T,
    n: int,
    r: T,
)
    requires
        is_exact(ops, val),
        n <= stats.len(),
        val(k) == product(sigma, (14_826 as real) / (10_000 as real)),
        evals(ops, residual_of(stats, k, n), r),
    ensures
        forall|c: int| 0 <= c < n ==> val(r) <= #[trigger] kept_of(val, stats[c], sigma),
        is_one_of_kept(ops, val, stats, sigma, n, val(r)),
    decreases n,
{
    if n > 0 {
        let s = stats[n - 1];
        let rise = Formula::Given(s.median).minus(Formula::Given(s.p25));
        let noise = Formula::Given(k).times(Formula::Given(s.mad));
        lemma_exact_binary(
            ops,
            val,
            Binary::Minus,
            Formula::Given(s.median),
            Formula::Given(s.p25),
            val(s.median),
            val(s.p25),
        );
        lemma_exact_product(
            ops,
            val,
            Formula::Given(k),
            Formula::Given(s.mad),
            val(k),
            val(s.mad),
        );
        lemma_exact_binary(
            ops,
            val,
            Binary::Plus,
            rise,
            noise,
            val(s.median) - val(s.p25),
            product(val(k), val(s.mad)),
        );
        let (x, y) = choose|x: T, y: T|
            evals(ops, residual_of(stats, k, n - 1), x) && evals(ops, rise.plus(noise), y)
                && #[trigger] binary_answers(ops, Binary::Least, x, y, r);
        lemma_residual_is_least(ops, val, stats, sigma, k, n - 1, x);
        assert(val(y) == kept_of(val, s, sigma));
        assert forall|c: int| 0 <= c < n implies val(r) <= #[trigger] kept_of(
            val,
            stats[c],
            sigma,
        ) by {
            if c < n - 1 {
                assert(val(x) <= kept_of(val, stats[c], sigma));
            }
        }
        if val(y) < val(x) {
            assert(val(r) == kept_of(val, stats[n - 1], sigma));
        }
    } else {
        assert(evals(ops, Formula::Infinity, r));
    }
}

/// `r` is what one of the first `n` channels keeps, or infinity.
pub open spec fn is_one_of_kept<T, A: Arithmetic<T>>(
    ops: &A,
    val: spec_fn(T) -> real,
    stats: Seq<MtfStats<T>>,
    sigma: real,
    n: int,
    r: real,
) -> bool {
    ||| exists|c: int| 0 <= c < n && r == #[trigger] kept_of(val, stats[c], sigma)
    ||| exists|v: T| #[trigger] evals(ops, Formula::Infinity, v) && val(v) == r
}

/// The greatest of three numbers, at least zero.
pub open spec fn greatest(a: real, b: real, c: real) -> real {
    greater(greater(greater(0 as real, a), b), c)
}

/// The linked stretch subtracts from every channel what its median has above
/// the smallest background that a channel keeps, so that the channels meet
/// there; rescales all by what the greatest shadow leaves; and takes its midtone
/// from green, whose lit median it lands on the target.
pub proof fn lemma_linked_solution_lands<T, A: Arithmetic<T>>(
    ops: &A,
    val: spec_fn(T) -> real,
    planes: Seq<Seq<T>>,
    bg_percent: T,
    sigma: T,
    stats: Seq<MtfStats<T>>,
    k: T,
    residual: T,
    mapped: Seq<T>,
    flags: Seq<bool>,
    median: T,
    shadows: Seq<T>,
    scale: T,
    midtone: T,
)
    requires
        is_exact(ops, val),
        keys_follow(ops, val),
        planes.len() == 3,
        is_linked_solution_by(
            ops,
            planes,
            bg_percent,
            sigma,
            stats,
            k,
            residual,
            mapped,
            flags,
            median,
            shadows,
            scale,
            midtone,
        ),
    ensures
        stats.len() == 3,
        forall|c: int| 0 <= c < 3 ==> are_linked_stats(ops, planes[c], #[trigger] stats[c]),
        forall|c: int|
            0 <= c < 3 ==> val(residual) <= #[trigger] kept_of(val, stats[c], val(sigma)),
        is_one_of_kept(ops, val, stats, val(sigma), 3, val(residual)),
        forall|c: int|
            0 <= c < 3 ==> val(#[trigger] shadows[c]) == greater(
                val(stats[c].median) - val(residual),
                0 as real,
            ),
        product(
            val(scale),
            greater(
                (1 as real) - greatest(val(shadows[0]), val(shadows[1]), val(shadows[2])),
                (1 as real) / (1_000_000 as real),
            ),
        ) == 1 as real,
        mapped.len() == planes[1].len(),
        forall|i: int|
            0 <= i < mapped.len() ==> val(#[trigger] mapped[i]) == into_unit(
                product(val(planes[1][i]) - val(shadows[1]), val(scale)),
            ),
        lit_of(val, mapped).len() > 0 ==> is_middle(val, lit_of(val, mapped), val(median)),
        is_landed(val(midtone), val(median), val(bg_percent)),
{
    lemma_exact_whole(ops, val, 0);
    lemma_exact_whole(ops, val, 1);
    let q = (14_826u64 as int as real) / (10_000u64 as int as real);
    lemma_exact_ratio(ops, val, 14_826, 10_000);
    lemma_exact_product(
        ops,
        val,
        Formula::Given(sigma),
        Formula::Ratio(14_826, 10_000),
        val(sigma),
        q,
    );
    lemma_residual_is_least(ops, val, stats, val(sigma), k, 3, residual);
    let zero = 0u64 as int as real;
    assert forall|c: int| 0 <= c < 3 implies val(#[trigger] shadows[c]) == greater(
        val(stats[c].median) - val(residual),
        0 as real,
    ) by {
        let (f, g) = (Formula::Given(stats[c].median), Formula::Given(residual));
        let m = val(stats[c].median);
        lemma_exact_binary(ops, val, Binary::Minus, f, g, m, val(residual));
        lemma_exact_most(ops, val, f.minus(g), whole(0), m - val(residual), zero);
        assert(evals(ops, f.minus(g).most(whole(0)), shadows[c]));
    }
    lemma_rescale_value(ops, val, shadows, scale);
    assert forall|i: int| 0 <= i < mapped.len() implies val(#[trigger] mapped[i]) == into_unit(
        product(val(planes[1][i]) - val(shadows[1]), val(scale)),
    ) by {
        let v = planes[1][i];
        let (f, g, s) = (Formula::Given(v), Formula::Given(shadows[1]), Formula::Given(scale));
        lemma_exact_binary(ops, val, Binary::Minus, f, g, val(v), val(shadows[1]));
        lemma_exact_product(ops, val, f.minus(g), s, val(v) - val(shadows[1]), val(scale));
        lemma_exact_unit(
            ops,
            val,
            f.minus(g).times(s),
            product(val(v) - val(shadows[1]), val(scale)),
        );
        assert(evals(ops, shadowed(shadows[1], scale)(v), mapped[i]));
    }
    lemma_lit_is_picked(ops, val, mapped, flags, mapped.len() as int);
    assert(mapped.take(mapped.len() as int) =~= mapped);
    if lit_of(val, mapped).len() > 0 {
        lemma_median_is_middle(ops, val, lit_of(val, mapped), median);
    }
    lemma_midtone_is_landed(ops, val, median, bg_percent, midtone);
}

/// The common rescale in numbers.
#[verifier::spinoff_prover]
proof fn lemma_rescale_value<T, A: Arithmetic<T>>(
    ops: &A,
    val: spec_fn(T) -> real,
    shadows: Seq<T>,
    scale: T,
)
    requires
        is_exact(ops, val),
        shadows.len() == 3,
        evals(
            ops,
            whole(1).over(
                whole(1).minus(largest_of(shadows, 3)).most(Formula::Ratio(1, 1_000_000)),
            ),
            scale,
        ),
    ensures
        product(
            val(scale),
            greater(
                (1 as real) - greatest(val(shadows[0]), val(shadows[1]), val(shadows[2])),
                (1 as real) / (1_000_000 as real),
            ),
        ) == 1 as real,
{
    reveal_with_fuel(largest_of, 4);
    lemma_exact_whole(ops, val, 0);
    lemma_exact_whole(ops, val, 1);
    let (a, b, c) = (
        Formula::Given(shadows[0]),
        Formula::Given(shadows[1]),
        Formula::Given(shadows[2]),
    );
    let (x, y, z) = (val(shadows[0]), val(shadows[1]), val(shadows[2]));
    let zero = 0u64 as int as real;
    lemma_exact_most(ops, val, whole(0), a, zero, x);
    lemma_exact_most(ops, val, whole(0).most(a), b, greater(zero, x), y);
    lemma_exact_most(ops, val, whole(0).most(a).most(b), c, greater(greater(zero, x), y), z);
    let top = greatest(x, y, z);
    assert(denotes(ops, val, largest_of(shadows, 3), top));
    let one = 1u64 as int as real;
    lemma_exact_binary(ops, val, Binary::Minus, whole(1), largest_of(shadows, 3), one, top);
    lemma_exact_ratio(ops, val, 1, 1_000_000);
    let e = (1u64 as int as real) / (1_000_000u64 as int as real);
    let rest = whole(1).minus(largest_of(shadows, 3));
    lemma_exact_most(ops, val, rest, Formula::Ratio(1, 1_000_000), one - top, e);
    lemma_exact_quotient(
        ops,
        val,
        whole(1),
        rest.most(Formula::Ratio(1, 1_000_000)),
        one,
        greater(one - top, e),
        scale,
    );
}

/// The stretch of a channel by itself clips at `sigma` times 1.4826 spreads
/// below the lower quartile of its samples strictly between 0 and 1, rescales
/// what is above to the unit range, and lands their median on the target. A
/// channel without such samples is not changed.
#[verifier::spinoff_prover]
pub proof fn lemma_channel_solution_lands<T, A: Arithmetic<T>>(
    ops: &A,
    val: spec_fn(T) -> real,
    plane: Seq<T>,
    bg_percent: T,
    sigma: T,
    stats: MtfStats<T>,
    range: T,
    median: T,
    shadow: T,
    scale: T,
    midtone: T,
) -> (devs: Seq<T>)
    requires
        is_exact(ops, val),
        keys_follow(ops, val),
        rounds_exactly(ops, val),
        has_only_numbers(ops),
        plane.len() <= usize::MAX,
        is_channel_solution_by(
            ops,
            plane,
            bg_percent,
            sigma,
            stats,
            range,
            median,
            shadow,
            scale,
            midtone,
        ),
    ensures
        stats.count == inner_of(val, plane).len(),
        stats.count == 0 ==> val(shadow) == 0 as real && val(scale) == 1 as real && (2 as real)
            * val(midtone) == 1 as real,
        stats.count > 0 ==> are_measures(
            val,
            inner_of(val, plane),
            devs,
            val(stats.p25),
            val(stats.median),
            val(stats.mad),
        ),
        stats.count > 0 ==> val(shadow) == greater(
            val(stats.p25) - product(
                product(val(sigma), val(stats.mad)),
                (14_826 as real) / (10_000 as real),
            ),
            0 as real,
        ),
        stats.count > 0 && val(shadow) != 1 as real ==> product(
            val(scale),
            (1 as real) - val(shadow),
        ) == 1 as real && product(val(median), (1 as real) - val(shadow)) == val(stats.median)
            - val(shadow),
        stats.count > 0 ==> is_landed(val(midtone), val(median), val(bg_percent)),
{
    lemma_exact_whole(ops, val, 0);
    lemma_exact_whole(ops, val, 1);
    let flags = choose|flags: Seq<bool>| #[trigger]
        are_inside(ops, plane, flags) && if picked(plane, flags).len() == 0 {
            &&& evals(ops, whole(0), stats.median)
            &&& evals(ops, whole(0), stats.p25)
            &&& evals(ops, whole(0), stats.mad)
            &&& stats.count == 0
        } else {
            are_stats(ops, picked(plane, flags), stats)
        };
    lemma_inner_is_picked(ops, val, plane, flags, plane.len() as int);
    assert(plane.take(plane.len() as int) =~= plane);
    lemma_inner_length(val, plane);
    let inner = inner_of(val, plane);
    if inner.len() == 0 {
        lemma_exact_ratio(ops, val, 1, 2);
        inner
    } else {
        let devs = lemma_stats_are_measures(ops, val, inner, stats);
        let q = (14_826u64 as int as real) / (10_000u64 as int as real);
        lemma_exact_ratio(ops, val, 14_826, 10_000);
        let (s, m, p) = (
            Formula::Given(sigma),
            Formula::Given(stats.mad),
            Formula::Given(stats.p25),
        );
        let noise = s.times(m).times(Formula::Ratio(14_826, 10_000));
        let width = product(val(sigma), val(stats.mad));
        lemma_exact_product(ops, val, s, m, val(sigma), val(stats.mad));
        lemma_exact_product(ops, val, s.times(m), Formula::Ratio(14_826, 10_000), width, q);
        lemma_exact_binary(
            ops,
            val,
            Binary::Minus,
            p,
            noise,
            val(stats.p25),
            product(width, q),
        );
        lemma_exact_most(
            ops,
            val,
            p.minus(noise),
            whole(0),
            val(stats.p25) - product(width, q),
            0u64 as int as real,
        );
        let f = Formula::Given(shadow);
        lemma_exact_binary(
            ops,
            val,
            Binary::Minus,
            whole(1),
            f,
            1u64 as int as real,
            val(shadow),
        );
        let rest = (1 as real) - val(shadow);
        assert(val(range) == rest);
        if val(shadow) != 1 as real {
            let g = Formula::Given(range);
            lemma_exact_quotient(
                ops,
                val,
                whole(1),
                g,
                1u64 as int as real,
                rest,
                scale,
            );
            let h = Formula::Given(stats.median).minus(f);
            lemma_exact_binary(
                ops,
                val,
                Binary::Minus,
                Formula::Given(stats.median),
                f,
                val(stats.median),
                val(shadow),
            );
            lemma_exact_quotient(
                ops,
                val,
                h,
                g,
                val(stats.median) - val(shadow),
                rest,
                median,
            );
        }
        lemma_midtone_is_landed(ops, val, median, bg_percent, midtone);
        devs
    }
}

} // verus!
