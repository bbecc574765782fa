//! What contrast and green removal do to the numbers that samples stand for.

use super::clipping::every_sample;
use super::exact::{
    denotes, into_unit, is_exact, lemma_exact_binary, lemma_exact_product, lemma_exact_ratio,
    lemma_exact_unit, lemma_exact_whole,
};
use super::reals::{product, sum};
use crate::arith::{
    Arithmetic, Binary, Formula, Test, binary_answers, decides, evals, test_answers, whole,
};
use crate::enhance::{
    are_sums, contrasted, is_contrast_off, is_contrasted, is_mean,
};
use crate::frame::{Raster, maps_image};
use crate::plane::sum_of;
use crate::stretch::{is_green_removed, is_less_green, is_suppressed, less_green};
use vstd::prelude::*;

verus! {

/// The numbers that samples stand for.
pub open spec fn values_of<T>(val: spec_fn(T) -> real, s: Seq<T>) -> spec_fn(int) -> real {
    |i: int| val(s[i])
}

/// A sum of samples stands for the sum of their numbers.
pub proof fn lemma_exact_sum<T, A: Arithmetic<T>>(
    ops: &A,
    val: spec_fn(T) -> real,
    s: Seq<T>,
    n: int,
)
    requires
        is_exact(ops, val),
    ensures
        denotes(ops, val, sum_of(s, n), sum(values_of(val, s), n)),
    decreases n,
{
    lemma_exact_whole(ops, val, 0);
    if n > 0 {
        lemma_exact_sum(ops, val, s, n - 1);
        lemma_exact_binary(
            ops,
            val,
            Binary::Plus,
            sum_of(s, n - 1),
            Formula::Given(s[n - 1]),
            sum(values_of(val, s), n - 1),
            val(s[n - 1]),
        );
    }
}

/// The sum over two runs of samples.
proof fn lemma_sum_of_joined<T>(val: spec_fn(T) -> real, s: Seq<T>, t: Seq<T>, n: int)
    requires
        0 <= n <= s.len() + t.len(),
    ensures
        n <= s.len() ==> sum(values_of(val, s + t), n) == sum(values_of(val, s), n),
        n >= s.len() ==> sum(values_of(val, s + t), n) == sum(values_of(val, s), s.len() as int)
            + sum(values_of(val, t), n - s.len()),
    decreases n,
{
    if n > 0 {
        lemma_sum_of_joined(val, s, t, n - 1);
        let k = n - 1;
        if k < s.len() {
            assert((s + t)[k] == s[k]);
        } else {
            assert((s + t)[k] == t[k - s.len()]);
        }
    }
}

/// The sum of all samples of an image.
pub open spec fn sum_of_image<T>(val: spec_fn(T) -> real, image: Raster<T>) -> real {
    sum(values_of(val, every_sample(image)), every_sample(image).len() as int)
}

/// The sums of the channels add up to that of the image.
proof fn lemma_sum_of_channels<T, A: Arithmetic<T>>(
    ops: &A,
    val: spec_fn(T) -> real,
    image: Raster<T>,
    sums: Seq<T>,
)
    requires
        is_exact(ops, val),
        image.wf(),
        are_sums(ops, image.planes, sums),
    ensures
        sum(values_of(val, sums), sums.len() as int) == sum_of_image(val, image),
{
    let p = image.planes;
    reveal_with_fuel(sum, 4);
    assert forall|c: int| 0 <= c < sums.len() implies val(#[trigger] sums[c]) == sum(
        values_of(val, p[c]),
        p[c].len() as int,
    ) by {
        lemma_exact_sum(ops, val, p[c], p[c].len() as int);
    }
    if p.len() == 3 {
        lemma_sum_of_joined(val, p[0], p[1], (p[0] + p[1]).len() as int);
        lemma_sum_of_joined(val, p[0] + p[1], p[2], every_sample(image).len() as int);
        assert(val(sums[0]) + val(sums[1]) + val(sums[2]) == sum_of_image(val, image));
    } else {
        assert(val(sums[0]) == sum_of_image(val, image));
    }
}

/// Contrast only widens: a strength of one or less changes nothing.
pub proof fn lemma_contrast_only_widens<T, A: Arithmetic<T>>(
    ops: &A,
    val: spec_fn(T) -> real,
    strength: T,
    image: Raster<T>,
    out: Raster<T>,
)
    requires
        is_exact(ops, val),
        val(strength) <= 1 as real,
        is_contrasted(ops, strength, image, out),
    ensures
        out == image,
{
    lemma_exact_whole(ops, val, 1);
    let (off, empty) = choose|off: bool, empty: bool| #[trigger]
        is_contrast_off(ops, strength, image, off, empty) && if off || empty {
            out == image
        } else {
            exists|sums: Seq<T>, mean: T| #[trigger]
                is_mean(ops, image, sums, mean) && maps_image(
                    ops,
                    contrasted(mean, strength),
                    image,
                    out,
                )
        };
    let (x, y) = choose|x: T, y: T|
        evals(ops, Formula::Given(strength), x) && evals(ops, whole(1), y)
            && #[trigger] test_answers(ops, Test::LessOrEqual, x, y, off);
}

/// Contrast is anchored at the mean of all samples of all channels: a strength
/// above one moves every sample away from it by that factor, within the unit
/// range.
pub proof fn lemma_contrast_is_anchored<T, A: Arithmetic<T>>(
    ops: &A,
    val: spec_fn(T) -> real,
    strength: T,
    image: Raster<T>,
    mean: real,
    out: Raster<T>,
)
    requires
        is_exact(ops, val),
        image.wf(),
        1 <= image.samples() <= usize::MAX,
        val(strength) > 1 as real,
        mean == sum_of_image(val, image) / (image.samples() as int as real),
        is_contrasted(ops, strength, image, out),
    ensures
        out.same_shape(image),
        forall|c: int, i: int|
            #![trigger out.planes[c][i]]
            0 <= c < image.planes.len() && 0 <= i < image.width * image.height ==> val(
                out.planes[c][i],
            ) == into_unit(mean + product(val(image.planes[c][i]) - mean, val(strength))),
{
    let (off, empty) = choose|off: bool, empty: bool| #[trigger]
        is_contrast_off(ops, strength, image, off, empty) && if off || empty {
            out == image
        } else {
            exists|sums: Seq<T>, mean: T| #[trigger]
                is_mean(ops, image, sums, mean) && maps_image(
                    ops,
                    contrasted(mean, strength),
                    image,
                    out,
                )
        };
    lemma_exact_whole(ops, val, 0);
    lemma_exact_whole(ops, val, 1);
    let n = image.samples() as usize;
    assert(denotes(ops, val, Formula::<T>::Count(n), n as int as real));
    let (x, y) = choose|x: T, y: T|
        evals(ops, Formula::Given(strength), x) && evals(ops, whole(1), y)
            && #[trigger] test_answers(ops, Test::LessOrEqual, x, y, off);
    assert(!off);
    let (p, q) = choose|x: T, y: T|
        evals(ops, Formula::Count(n), x) && evals(ops, whole(0), y) && #[trigger] test_answers(
            ops,
            Test::Equal,
            x,
            y,
            empty,
        );
    assert(!empty);
    let (sums, m) = choose|sums: Seq<T>, mean: T| #[trigger]
        is_mean(ops, image, sums, mean) && maps_image(ops, contrasted(mean, strength), image, out);
    lemma_sum_of_channels(ops, val, image, sums);
    lemma_exact_sum(ops, val, sums, sums.len() as int);
    lemma_exact_binary(
        ops,
        val,
        Binary::Over,
        sum_of(sums, sums.len() as int),
        Formula::Count(n),
        sum_of_image(val, image),
        n as int as real,
    );
    assert(val(m) == mean);
    assert forall|c: int, i: int|
        #![trigger out.planes[c][i]]
        0 <= c < image.planes.len() && 0 <= i < image.width * image.height implies val(
        out.planes[c][i],
    ) == into_unit(mean + product(val(image.planes[c][i]) - mean, val(strength))) by {
        let v = image.planes[c][i];
        let (f, g, s) = (Formula::Given(v), Formula::Given(m), Formula::Given(strength));
        lemma_exact_binary(ops, val, Binary::Minus, f, g, val(v), mean);
        lemma_exact_product(ops, val, f.minus(g), s, val(v) - mean, val(strength));
        let r = product(val(v) - mean, val(strength));
        lemma_exact_binary(ops, val, Binary::Plus, g, f.minus(g).times(s), mean, r);
        lemma_exact_unit(ops, val, g.plus(f.minus(g).times(s)), mean + r);
        assert(image.planes[c].len() == image.width * image.height);
        assert(evals(ops, contrasted(m, strength)(v), out.planes[c][i]));
    }
}

/// Green above the mean of red and blue, with the part `a` of its excess taken
/// away; other green as it is.
pub open spec fn without_green(a: real, r: real, g: real, b: real) -> real {
    let n = (r + b) / (2 as real);
    if n < g {
        g - product(a, g - n)
    } else {
        g
    }
}

/// One green sample.
proof fn lemma_less_green_exact<T, A: Arithmetic<T>>(
    ops: &A,
    val: spec_fn(T) -> real,
    a: T,
    r: T,
    g: T,
    b: T,
    out: T,
)
    requires
        is_exact(ops, val),
        is_less_green(ops, a, r, g, b, out),
    ensures
        val(out) == without_green(val(a), val(r), val(g), val(b)),
{
    let n = choose|neutral: T|
        evals(
            ops,
            Formula::Given(r).plus(Formula::Given(b)).times(Formula::Ratio(1, 2)),
            neutral,
        ) && #[trigger] evals(ops, less_green(g, neutral, a), out);
    let (fr, fb, fg, fa, fm) = (
        Formula::Given(r),
        Formula::Given(b),
        Formula::Given(g),
        Formula::Given(a),
        Formula::Given(n),
    );
    let half = (1u64 as int as real) / (2u64 as int as real);
    lemma_exact_ratio(ops, val, 1, 2);
    lemma_exact_binary(ops, val, Binary::Plus, fr, fb, val(r), val(b));
    lemma_exact_product(ops, val, fr.plus(fb), Formula::Ratio(1, 2), val(r) + val(b), half);
    lemma_half_of(val(r) + val(b), half);
    assert(val(n) == (val(r) + val(b)) / (2 as real));
    lemma_exact_binary(ops, val, Binary::Minus, fg, fm, val(g), val(n));
    lemma_exact_product(ops, val, fa, fg.minus(fm), val(a), val(g) - val(n));
    let e = product(val(a), val(g) - val(n));
    lemma_exact_binary(ops, val, Binary::Minus, fg, fa.times(fg.minus(fm)), val(g), e);
    let (x, y, t) = choose|x: T, y: T, t: bool|
        evals(ops, fm, x) && evals(ops, fg, y) && #[trigger] test_answers(
            ops,
            Test::Less,
            x,
            y,
            t,
        ) && (if t {
            evals(ops, fg.minus(fa.times(fg.minus(fm))), out)
        } else {
            evals(ops, fg, out)
        });
}

/// Half of a number.
proof fn lemma_half_of(s: real, half: real)
    requires
        half == (1u64 as int as real) / (2u64 as int as real),
    ensures
        product(s, half) == s / (2 as real),
{
    reveal(product);
    assert(s * half == s / (2 as real)) by (nonlinear_arith)
        requires
            half == (1u64 as int as real) / (2u64 as int as real),
    ;
}

/// Green removal leaves red and blue alone and pulls green towards their mean:
/// by the amount of its excess, by all of it from an amount of one on.
pub proof fn lemma_green_is_pulled<T, A: Arithmetic<T>>(
    ops: &A,
    val: spec_fn(T) -> real,
    amount: T,
    image: Raster<T>,
    part: real,
    out: Raster<T>,
)
    requires
        is_exact(ops, val),
        image.wf(),
        image.planes.len() == 3,
        val(amount) > 0 as real,
        part == if val(amount) < 1 as real {
            val(amount)
        } else {
            1 as real
        },
        is_green_removed(ops, amount, image, out),
    ensures
        out.same_shape(image),
        out.planes[0] == image.planes[0],
        out.planes[2] == image.planes[2],
        forall|i: int|
            0 <= i < image.width * image.height ==> val(#[trigger] out.planes[1][i])
                == without_green(
                part,
                val(image.planes[0][i]),
                val(image.planes[1][i]),
                val(image.planes[2][i]),
            ),
{
    lemma_exact_whole(ops, val, 0);
    lemma_exact_whole(ops, val, 1);
    let off = choose|off: bool| #[trigger]
        decides(ops, Test::LessOrEqual, Formula::Given(amount), whole(0), off) && if off {
            out == image
        } else {
            exists|part: T| #[trigger]
                is_suppressed(ops, part, image, out) && evals(
                    ops,
                    Formula::Given(amount).least(whole(1)),
                    part,
                )
        };
    let (x, y) = choose|x: T, y: T|
        evals(ops, Formula::Given(amount), x) && evals(ops, whole(0), y)
            && #[trigger] test_answers(ops, Test::LessOrEqual, x, y, off);
    assert(!off);
    let a = choose|part: T| #[trigger]
        is_suppressed(ops, part, image, out) && evals(
            ops,
            Formula::Given(amount).least(whole(1)),
            part,
        );
    let (p, q) = choose|x: T, y: T|
        evals(ops, Formula::Given(amount), x) && evals(ops, whole(1), y)
            && #[trigger] binary_answers(ops, Binary::Least, x, y, a);
    assert(val(a) == part);
    assert forall|i: int| 0 <= i < image.width * image.height implies val(
        #[trigger] out.planes[1][i],
    ) == without_green(
        part,
        val(image.planes[0][i]),
        val(image.planes[1][i]),
        val(image.planes[2][i]),
    ) by {
        assert(image.planes[1].len() == image.width * image.height);
        lemma_less_green_exact(
            ops,
            val,
            a,
            image.planes[0][i],
            image.planes[1][i],
            image.planes[2][i],
            out.planes[1][i],
        );
    }
}

} // verus!
