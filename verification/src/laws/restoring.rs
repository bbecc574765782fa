//! What denoising takes away from a channel.

use super::exact::{
    denotes, is_exact, lemma_exact_binary, lemma_exact_product, lemma_exact_ratio,
    lemma_exact_whole,
};
use super::exchange::{greater, lemma_exact_most};
use super::order::{keys_follow, lemma_median_is_middle, stands_at};
use super::reals::{lemma_product_commutes, lemma_product_of_unit, lemma_quotient_product, product};
use crate::arith::{
    Arithmetic, Binary, Formula, Test, Unary, binary_answers, decides, evals, evals_all,
    test_answers, unary_answers, whole,
};
use crate::denoise::{
    DenoiseParams, ThresholdMode, decomposes, decomposes_at, is_denoised_by, is_noise_sigma,
    magnitudes, noise_level_of, rebuilds, rebuilds_at, sigma_of, threshold_of, thresholded,
};
use crate::stats::is_median;
use vstd::prelude::*;

verus! {

/// The sign of a number other than zero is exact.
pub open spec fn signs_exactly<T, A: Arithmetic<T>>(ops: &A, val: spec_fn(T) -> real) -> bool {
    forall|x: T, v: T| #[trigger]
        unary_answers(ops, Unary::Signum, x, v) ==> (val(x) > 0 as real ==> val(v) == 1 as real)
            && (val(x) < 0 as real ==> val(v) == -(1 as real))
}

/// The magnitude of a number.
pub open spec fn size_of(a: real) -> real {
    if a < 0 as real {
        -a
    } else {
        a
    }
}

/// What a threshold takes away from a coefficient: in hard mode all of it up to
/// the threshold and nothing above, in soft mode as much of it as the threshold
/// allows.
pub open spec fn taken(mode: ThresholdMode, d: real, t: real) -> real {
    match mode {
        ThresholdMode::Hard => if t < size_of(d) {
            0 as real
        } else {
            d
        },
        ThresholdMode::Soft => if size_of(d) <= t {
            d
        } else if d > 0 as real {
            t
        } else {
            -t
        },
    }
}

/// No more is taken away than the threshold.
pub proof fn lemma_taken_is_limited(mode: ThresholdMode, d: real, t: real)
    requires
        t >= 0 as real,
    ensures
        size_of(taken(mode, d, t)) <= t,
{
}

/// A magnitude.
pub proof fn lemma_exact_size<T, A: Arithmetic<T>>(
    ops: &A,
    val: spec_fn(T) -> real,
    f: Formula<T>,
    a: real,
)
    requires
        is_exact(ops, val),
        denotes(ops, val, f, a),
    ensures
        denotes(ops, val, f.abs(), size_of(a)),
{
    assert forall|v: T| #[trigger] evals(ops, f.abs(), v) implies val(v) == size_of(a) by {
        let x = choose|x: T| evals(ops, f, x) && #[trigger] unary_answers(ops, Unary::Abs, x, v);
    }
}

/// What thresholding leaves is the coefficient less what it takes away.
proof fn lemma_thresholded_value<T, A: Arithmetic<T>>(
    ops: &A,
    val: spec_fn(T) -> real,
    mode: ThresholdMode,
    d: T,
    t: T,
)
    requires
        is_exact(ops, val),
        signs_exactly(ops, val),
        val(t) >= 0 as real,
    ensures
        denotes(ops, val, thresholded(mode, d, t), val(d) - taken(mode, val(d), val(t))),
{
    let (f, g) = (Formula::Given(d), Formula::Given(t));
    lemma_exact_size(ops, val, f, val(d));
    lemma_exact_whole(ops, val, 0);
    let r = val(d) - taken(mode, val(d), val(t));
    let s = size_of(val(d));
    match mode {
        ThresholdMode::Hard => {
            assert forall|v: T| #[trigger] evals(ops, thresholded(mode, d, t), v) implies val(v)
                == r by {
                let (x, y, b) = choose|x: T, y: T, b: bool|
                    evals(ops, g, x) && evals(ops, f.abs(), y) && #[trigger] test_answers(
                        ops,
                        Test::Less,
                        x,
                        y,
                        b,
                    ) && (if b {
                        evals(ops, f, v)
                    } else {
                        evals(ops, whole(0), v)
                    });
            }
        },
        ThresholdMode::Soft => {
            lemma_exact_binary(ops, val, Binary::Minus, f.abs(), g, s, val(t));
            let zero = 0u64 as int as real;
            let rest = f.abs().minus(g).most(whole(0));
            lemma_exact_most(ops, val, f.abs().minus(g), whole(0), s - val(t), zero);
            let q = greater(s - val(t), zero);
            assert forall|v: T| #[trigger] evals(ops, thresholded(mode, d, t), v) implies val(v)
                == r by {
                let sign = f.apply(Unary::Signum);
                let (x, y) = choose|x: T, y: T|
                    evals(ops, sign, x) && evals(ops, rest, y)
                        && #[trigger] binary_answers(ops, Binary::Times, x, y, v);
                let e = choose|e: T|
                    evals(ops, f, e) && #[trigger] unary_answers(ops, Unary::Signum, e, x);
                let (fx, fy) = (Formula::Given(x), Formula::Given(y));
                lemma_exact_product(ops, val, fx, fy, val(x), val(y));
                assert(evals(ops, fx, x) && evals(ops, fy, y));
                assert(evals(ops, fx.times(fy), v));
                assert(val(v) == product(val(x), q));
                lemma_product_of_unit(q);
                lemma_product_of_unit(val(x));
                lemma_signed(q);
            }
        },
    }
}

/// A number times minus one.
proof fn lemma_signed(q: real)
    ensures
        product(-(1 as real), q) == -q,
{
    reveal(product);
    assert((-(1 as real)) * q == -q) by (nonlinear_arith);
}

/// What the first `n` scales take away at place `i`.
pub open spec fn taken_at<T>(
    val: spec_fn(T) -> real,
    mode: ThresholdMode,
    details: Seq<Seq<T>>,
    limits: Seq<real>,
    i: int,
    n: int,
) -> real
    decreases n,
{
    if n <= 0 {
        0 as real
    } else {
        taken_at(val, mode, details, limits, i, n - 1) + taken(
            mode,
            val(details[n - 1][i]),
            limits[n - 1],
        )
    }
}

/// The details from scale `n` on, at place `i`.
proof fn lemma_details_add_up<T, A: Arithmetic<T>>(
    ops: &A,
    val: spec_fn(T) -> real,
    params: DenoiseParams<T>,
    channel: Seq<T>,
    w: int,
    h: int,
    coarse: Seq<Seq<T>>,
    details: Seq<Seq<T>>,
    sigma: T,
    limits: Seq<T>,
    numbers: Seq<real>,
    sums: Seq<Seq<T>>,
    i: int,
    n: int,
)
    requires
        is_exact(ops, val),
        signs_exactly(ops, val),
        decomposes(ops, channel, w, h, coarse, details),
        rebuilds(ops, params, sigma, coarse.last(), details, limits, sums),
        limits.len() == details.len(),
        numbers.len() == limits.len(),
        forall|j: int|
            0 <= j < limits.len() ==> val(#[trigger] limits[j]) == numbers[j] && numbers[j]
                >= 0 as real,
        0 <= i < channel.len(),
        0 <= n <= details.len(),
        forall|j: int| 0 <= j < coarse.len() ==> (#[trigger] coarse[j]).len() == channel.len(),
        forall|j: int| 0 <= j < sums.len() ==> (#[trigger] sums[j]).len() == channel.len(),
    ensures
        val(sums[n][i]) - val(coarse.last()[i]) == val(channel[i]) - val(coarse[n][i]) - taken_at(
            val,
            params.mode,
            details,
            numbers,
            i,
            n,
        ),
    decreases n,
{
    if n > 0 {
        let j = n - 1;
        lemma_details_add_up(
            ops,
            val,
            params,
            channel,
            w,
            h,
            coarse,
            details,
            sigma,
            limits,
            numbers,
            sums,
            i,
            j,
        );
        assert(decomposes_at(ops, w, h, coarse, details, j));
        assert(rebuilds_at(ops, params, sigma, details, limits, sums, j));
        assert(coarse[j].len() == channel.len());
        let (a, b) = (coarse[j][i], coarse[n][i]);
        let d = details[j][i];
        lemma_exact_binary(
            ops,
            val,
            Binary::Minus,
            Formula::Given(a),
            Formula::Given(b),
            val(a),
            val(b),
        );
        assert(evals(ops, Formula::Given(a).minus(Formula::Given(b)), d));
        let (s, t) = (sums[j][i], limits[j]);
        assert(sums[n].len() == channel.len());
        assert(val(t) == numbers[j]);
        lemma_thresholded_value(ops, val, params.mode, d, t);
        let kept = thresholded(params.mode, d, t);
        lemma_exact_binary(
            ops,
            val,
            Binary::Plus,
            Formula::Given(s),
            kept,
            val(s),
            val(d) - taken(params.mode, val(d), val(t)),
        );
        assert(evals(ops, Formula::Given(s).plus(kept), sums[n][i]));
    }
}

/// The planes of a decomposition and a reconstruction are as long as the
/// channel.
proof fn lemma_plane_lengths<T, A: Arithmetic<T>>(
    ops: &A,
    params: DenoiseParams<T>,
    channel: Seq<T>,
    w: int,
    h: int,
    coarse: Seq<Seq<T>>,
    details: Seq<Seq<T>>,
    sigma: T,
    limits: Seq<T>,
    sums: Seq<Seq<T>>,
    j: int,
)
    requires
        decomposes(ops, channel, w, h, coarse, details),
        rebuilds(ops, params, sigma, coarse.last(), details, limits, sums),
        limits.len() == details.len(),
        0 <= j <= details.len(),
    ensures
        coarse[j].len() == channel.len(),
        j == details.len() ==> forall|k: int|
            0 <= k <= details.len() ==> (#[trigger] sums[k]).len() == channel.len(),
    decreases j,
{
    if j > 0 {
        lemma_plane_lengths(
            ops,
            params,
            channel,
            w,
            h,
            coarse,
            details,
            sigma,
            limits,
            sums,
            j - 1,
        );
        assert(decomposes_at(ops, w, h, coarse, details, j - 1));
    }
    if j == details.len() {
        lemma_sum_lengths(ops, params, sigma, coarse.last(), details, limits, sums, j);
    }
}

/// The planes of a reconstruction are as long as the residual.
proof fn lemma_sum_lengths<T, A: Arithmetic<T>>(
    ops: &A,
    params: DenoiseParams<T>,
    sigma: T,
    residual: Seq<T>,
    details: Seq<Seq<T>>,
    limits: Seq<T>,
    sums: Seq<Seq<T>>,
    n: int,
)
    requires
        rebuilds(ops, params, sigma, residual, details, limits, sums),
        0 <= n <= limits.len(),
    ensures
        forall|k: int| 0 <= k <= n ==> (#[trigger] sums[k]).len() == residual.len(),
    decreases n,
{
    if n > 0 {
        lemma_sum_lengths(ops, params, sigma, residual, details, limits, sums, n - 1);
        assert(rebuilds_at(ops, params, sigma, details, limits, sums, n - 1));
    }
}

/// The threshold of scale `j`: so many times the noise of the channel as the
/// parameters say, one more at the finest scale, times the noise level of the
/// scale.
pub open spec fn limit_of(threshold: real, sigma: real, level: real, j: int) -> real {
    product(
        product(
            if j == 0 {
                threshold + 1 as real
            } else {
                threshold
            },
            sigma,
        ),
        level,
    )
}

/// The threshold of a scale in numbers.
proof fn lemma_limit_value<T, A: Arithmetic<T>>(
    ops: &A,
    val: spec_fn(T) -> real,
    threshold: T,
    sigma: T,
    j: int,
    level: real,
)
    requires
        is_exact(ops, val),
        denotes(ops, val, noise_level_of(j), level),
    ensures
        denotes(
            ops,
            val,
            threshold_of(threshold, sigma, j),
            limit_of(val(threshold), val(sigma), level, j),
        ),
{
    let (f, s) = (Formula::Given(threshold), Formula::Given(sigma));
    lemma_exact_whole(ops, val, 1);
    lemma_exact_binary(ops, val, Binary::Plus, f, whole(1), val(threshold), 1u64 as int as real);
    let (k, n) = if j == 0 {
        (f.plus(whole(1)), val(threshold) + 1 as real)
    } else {
        (f, val(threshold))
    };
    lemma_exact_product(ops, val, k, s, n, val(sigma));
    lemma_exact_product(ops, val, k.times(s), noise_level_of(j), product(n, val(sigma)), level);
}

/// Denoising takes away nothing but coefficients of the scales that are used,
/// and of each no more than its threshold: every sample is what it was less what
/// the thresholds took away. A channel without noise stays as it is.
pub proof fn lemma_denoising_takes_away<T, A: Arithmetic<T>>(
    ops: &A,
    val: spec_fn(T) -> real,
    params: DenoiseParams<T>,
    channel: Seq<T>,
    w: int,
    h: int,
    coarse: Seq<Seq<T>>,
    details: Seq<Seq<T>>,
    sigma: T,
    levels: Seq<real>,
    limits: Seq<real>,
    out: Seq<T>,
    i: int,
)
    requires
        is_exact(ops, val),
        signs_exactly(ops, val),
        is_denoised_by(ops, params, channel, w, h, coarse, details, sigma, out),
        levels.len() == details.len(),
        forall|j: int|
            0 <= j < details.len() ==> denotes(ops, val, noise_level_of(j), #[trigger] levels[j]),
        limits.len() == details.len(),
        forall|j: int|
            0 <= j < details.len() ==> #[trigger] limits[j] == limit_of(
                val(params.threshold),
                val(sigma),
                levels[j],
                j,
            ) && limits[j] >= 0 as real,
        0 <= i < channel.len(),
    ensures
        out.len() == channel.len(),
        val(sigma) <= 0 as real ==> out == channel,
        val(sigma) > 0 as real ==> val(out[i]) == val(channel[i]) - taken_at(
            val,
            params.mode,
            details,
            limits,
            i,
            details.len() as int,
        ),
{
    lemma_exact_whole(ops, val, 0);
    let quiet = choose|quiet: bool| #[trigger]
        decides(ops, Test::LessOrEqual, Formula::Given(sigma), whole(0), quiet) && if quiet {
            out == channel
        } else {
            exists|limits: Seq<T>, sums: Seq<Seq<T>>| #[trigger]
                rebuilds(ops, params, sigma, coarse.last(), details, limits, sums)
                    && limits.len() == details.len() && out == sums.last()
        };
    let (x, y) = choose|x: T, y: T|
        evals(ops, Formula::Given(sigma), x) && evals(ops, whole(0), y) && #[trigger] test_answers(
            ops,
            Test::LessOrEqual,
            x,
            y,
            quiet,
        );
    assert(quiet == (val(sigma) <= 0 as real));
    if !quiet {
        let (ts, sums) = choose|limits: Seq<T>, sums: Seq<Seq<T>>| #[trigger]
            rebuilds(ops, params, sigma, coarse.last(), details, limits, sums) && limits.len()
                == details.len() && out == sums.last();
        let n = details.len() as int;
        assert forall|j: int| 0 <= j < ts.len() implies val(#[trigger] ts[j]) == limits[j]
            && limits[j] >= 0 as real by {
            assert(rebuilds_at(ops, params, sigma, details, ts, sums, j));
            assert(denotes(ops, val, noise_level_of(j), levels[j]));
            lemma_limit_value(ops, val, params.threshold, sigma, j, levels[j]);
            assert(limits[j] == limit_of(val(params.threshold), val(sigma), levels[j], j));
        }
        assert forall|j: int| 0 <= j < coarse.len() implies (#[trigger] coarse[j]).len()
            == channel.len() by {
            lemma_plane_lengths(ops, params, channel, w, h, coarse, details, sigma, ts, sums, j);
        }
        lemma_plane_lengths(ops, params, channel, w, h, coarse, details, sigma, ts, sums, n);
        lemma_details_add_up(
            ops,
            val,
            params,
            channel,
            w,
            h,
            coarse,
            details,
            sigma,
            ts,
            limits,
            sums,
            i,
            n,
        );
    }
}

/// The noise of a channel is measured in its finest details: the median of
/// their magnitudes is 0.6745 times the noise that the finest scale holds of
/// it.
pub proof fn lemma_noise_is_median_detail<T, A: Arithmetic<T>>(
    ops: &A,
    val: spec_fn(T) -> real,
    finest: Seq<T>,
    sigma: T,
    level: real,
)
    requires
        is_exact(ops, val),
        keys_follow(ops, val),
        finest.len() > 0,
        is_noise_sigma(ops, finest, sigma),
        denotes(ops, val, noise_level_of(0), level),
        level > 0 as real,
    ensures
        exists|sizes: Seq<T>, i: int, j: int|
            is_middle_size(val, finest, sizes, i, j) && (2 as real) * product(
                (6745 as real) / (10_000 as real),
                product(level, val(sigma)),
            ) == #[trigger] val(sizes[i]) + #[trigger] val(sizes[j]),
{
    let (sizes, m) = choose|abs: Seq<T>, median: T|
        evals_all(ops, magnitudes(finest), abs) && #[trigger] is_median(ops, abs, median) && evals(
            ops,
            sigma_of(median),
            sigma,
        );
    assert forall|i: int| 0 <= i < sizes.len() implies val(#[trigger] sizes[i]) == size_of(
        val(finest[i]),
    ) by {
        lemma_exact_size(ops, val, Formula::Given(finest[i]), val(finest[i]));
        assert(evals(ops, magnitudes(finest)[i], sizes[i]));
    }
    lemma_median_is_middle(ops, val, sizes, m);
    let n = sizes.len() as int;
    let (i, j) = choose|i: int, j: int| #[trigger]
        stands_at(val, sizes, (n - 1) / 2, i) && #[trigger] stands_at(val, sizes, n / 2, j) && (
        2 as real) * val(m) == val(sizes[i]) + val(sizes[j]);
    assert(is_middle_size(val, finest, sizes, i, j));
    let q = (6745u64 as int as real) / (10000u64 as int as real);
    lemma_exact_ratio(ops, val, 6745, 10000);
    let f = Formula::Given(m).over(Formula::Ratio(6745, 10000));
    lemma_exact_binary(
        ops,
        val,
        Binary::Over,
        Formula::Given(m),
        Formula::Ratio(6745, 10000),
        val(m),
        q,
    );
    lemma_exact_binary(ops, val, Binary::Over, f, noise_level_of(0), val(m) / q, level);
    assert(val(sigma) == val(m) / q / level);
    lemma_quotient_product(val(m) / q, level);
    lemma_quotient_product(val(m), q);
    lemma_product_commutes(level, val(sigma));
    lemma_product_commutes(q, val(m) / q);
}

/// Samples `i` and `j` stand in the middle of the magnitudes of a plane.
pub open spec fn is_middle_size<T>(
    val: spec_fn(T) -> real,
    plane: Seq<T>,
    sizes: Seq<T>,
    i: int,
    j: int,
) -> bool {
    &&& sizes.len() == plane.len()
    &&& forall|k: int| 0 <= k < sizes.len() ==> val(#[trigger] sizes[k]) == size_of(val(plane[k]))
    &&& stands_at(val, sizes, (sizes.len() - 1) / 2, i)
    &&& stands_at(val, sizes, sizes.len() as int / 2, j)
}

} // verus!
