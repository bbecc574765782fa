//! A Gaussian blur is a weighted mean of the samples around a pixel.

use super::exact::{
    denotes, is_exact, lemma_exact_binary, lemma_exact_product, lemma_exact_quotient,
    lemma_exact_whole,
};
use super::order::rounds_exactly;
use super::reals::{
    lemma_product_commutes, lemma_product_distributes, lemma_product_not_negative,
    lemma_product_of_unit, lemma_sum_equal, lemma_sum_scaled, product, sum,
};
use super::toning::{lemma_exact_sum, values_of};
use crate::arith::{
    Arithmetic, Binary, Formula, Test, Unary, decides, evals, index_answers, indexes,
    test_answers, unary_answers, whole,
};
use crate::enhance::{
    blurred_column, blurred_row, is_blurred, is_blurred_by, is_blurred_with, is_kernel, limited,
    radius_of, raw_weight,
};
use crate::plane::lemma_pixel;
use vstd::prelude::*;

verus! {

/// Exponentials are positive.
pub open spec fn exp_is_positive<T, A: Arithmetic<T>>(ops: &A, val: spec_fn(T) -> real) -> bool {
    forall|x: T, v: T| #[trigger] unary_answers(ops, Unary::Exp, x, v) ==> val(v) > 0 as real
}

/// Exponentials and negation are those of numbers.
pub open spec fn has_exponentials<T, A: Arithmetic<T>>(
    ops: &A,
    val: spec_fn(T) -> real,
    ex: spec_fn(real) -> real,
) -> bool {
    &&& forall|x: T, v: T| #[trigger]
        unary_answers(ops, Unary::Exp, x, v) ==> val(v) == ex(val(x))
    &&& forall|x: T, v: T| #[trigger] unary_answers(ops, Unary::Neg, x, v) ==> val(v) == -val(x)
}

/// Numbers times weights.
pub open spec fn weighed(f: spec_fn(int) -> real, k: spec_fn(int) -> real) -> spec_fn(int) -> real {
    |i: int| product(f(i), k(i))
}

/// A weighted sum lies between the least and the greatest of the numbers, times
/// the sum of the weights.
pub proof fn lemma_weighed_bounds(
    f: spec_fn(int) -> real,
    k: spec_fn(int) -> real,
    n: int,
    low: real,
    high: real,
)
    requires
        forall|i: int| 0 <= i < n ==> low <= #[trigger] f(i) <= high && k(i) >= 0 as real,
    ensures
        product(low, sum(k, n)) <= sum(weighed(f, k), n) <= product(high, sum(k, n)),
    decreases n,
{
    lemma_product_of_unit(low);
    lemma_product_of_unit(high);
    if n > 0 {
        lemma_weighed_bounds(f, k, n - 1, low, high);
        let (x, w) = (f(n - 1), k(n - 1));
        lemma_product_distributes(low, sum(k, n - 1), w);
        lemma_product_distributes(high, sum(k, n - 1), w);
        lemma_product_not_negative(x - low, w);
        lemma_product_not_negative(high - x, w);
        lemma_product_distributes(x, low, w);
        lemma_product_distributes(high, x, w);
    }
}

/// A weighted sum is below the greatest number where a positive weight goes to
/// a smaller one.
pub proof fn lemma_weighed_below(
    f: spec_fn(int) -> real,
    k: spec_fn(int) -> real,
    n: int,
    high: real,
    j: int,
)
    requires
        forall|i: int| 0 <= i < n ==> #[trigger] f(i) <= high && k(i) >= 0 as real,
        0 <= j < n,
        f(j) < high,
        k(j) > 0 as real,
    ensures
        sum(weighed(f, k), n) < product(high, sum(k, n)),
    decreases n,
{
    let (x, w) = (f(n - 1), k(n - 1));
    lemma_product_distributes(high, sum(k, n - 1), w);
    lemma_product_distributes(high, x, w);
    if j == n - 1 {
        lemma_weighed_at_most(f, k, n - 1, high);
        lemma_product_positive(high - x, w);
    } else {
        lemma_weighed_below(f, k, n - 1, high, j);
        assert(f(n - 1) <= high && k(n - 1) >= 0 as real);
        lemma_product_not_negative(high - x, w);
    }
}

/// A weighted sum is at most the greatest number times the sum of the weights.
proof fn lemma_weighed_at_most(
    f: spec_fn(int) -> real,
    k: spec_fn(int) -> real,
    n: int,
    high: real,
)
    requires
        forall|i: int| 0 <= i < n ==> #[trigger] f(i) <= high && k(i) >= 0 as real,
    ensures
        sum(weighed(f, k), n) <= product(high, sum(k, n)),
    decreases n,
{
    lemma_product_of_unit(high);
    if n > 0 {
        lemma_weighed_at_most(f, k, n - 1, high);
        let (x, w) = (f(n - 1), k(n - 1));
        assert(x <= high && w >= 0 as real);
        lemma_product_distributes(high, sum(k, n - 1), w);
        lemma_product_not_negative(high - x, w);
        lemma_product_distributes(high, x, w);
    }
}

/// A product of positive numbers.
pub proof fn lemma_product_positive(a: real, b: real)
    requires
        a > 0 as real,
        b > 0 as real,
    ensures
        product(a, b) > 0 as real,
{
    reveal(product);
    assert(a * b > 0 as real) by (nonlinear_arith)
        requires
            a > 0 as real,
            b > 0 as real,
    ;
}

/// A sum of positive numbers.
proof fn lemma_sum_positive(f: spec_fn(int) -> real, n: int)
    requires
        n > 0,
        forall|i: int| 0 <= i < n ==> #[trigger] f(i) > 0 as real,
    ensures
        sum(f, n) > 0 as real,
    decreases n,
{
    assert(f(n - 1) > 0 as real);
    if n > 1 {
        lemma_sum_positive(f, n - 1);
    } else {
        assert(sum(f, 0) == 0 as real);
    }
}

/// A factor of one.
proof fn lemma_factor_is_one(a: real, b: real)
    requires
        product(a, b) == b,
        b > 0 as real,
    ensures
        a == 1 as real,
{
    reveal(product);
    assert(a == 1 as real) by (nonlinear_arith)
        requires
            a * b == b,
            b > 0 as real,
    ;
}

/// A raw weight is positive.
proof fn lemma_raw_weight_positive<T, A: Arithmetic<T>>(
    ops: &A,
    val: spec_fn(T) -> real,
    sigma: T,
    r: usize,
    i: int,
    v: T,
)
    requires
        exp_is_positive(ops, val),
        evals(ops, raw_weight(sigma, r, i), v),
    ensures
        val(v) > 0 as real,
{
    let d = Formula::<T>::Count(i as usize).minus(Formula::Count(r));
    let e = d.apply(Unary::Neg).times(d).over(
        whole(2).times(Formula::Given(sigma)).times(Formula::Given(sigma)),
    );
    assert(raw_weight(sigma, r, i) == e.apply(Unary::Exp));
    let x = choose|x: T| evals(ops, e, x) && #[trigger] unary_answers(ops, Unary::Exp, x, v);
}

/// The weights of a Gaussian kernel are positive and add up to one.
pub proof fn lemma_kernel_is_mean<T, A: Arithmetic<T>>(
    ops: &A,
    val: spec_fn(T) -> real,
    sigma: T,
    r: usize,
    raw: Seq<T>,
    norm: T,
    kernel: Seq<T>,
)
    requires
        is_exact(ops, val),
        exp_is_positive(ops, val),
        is_kernel(ops, sigma, r, raw, norm, kernel),
    ensures
        kernel.len() == 2 * r + 1,
        forall|i: int| 0 <= i < kernel.len() ==> val(#[trigger] kernel[i]) > 0 as real,
        sum(values_of(val, kernel), kernel.len() as int) == 1 as real,
{
    let n = raw.len() as int;
    let (f, k) = (values_of(val, raw), values_of(val, kernel));
    assert forall|i: int| 0 <= i < n implies #[trigger] f(i) > 0 as real by {
        assert(evals(ops, raw_weight(sigma, r, i), raw[i]));
        lemma_raw_weight_positive(ops, val, sigma, r, i, raw[i]);
    }
    lemma_sum_positive(f, n);
    lemma_exact_sum(ops, val, raw, n);
    assert(val(norm) == sum(f, n));
    let b = val(norm);
    let scaled = |i: int| product(b, k(i));
    assert forall|i: int| 0 <= i < n implies #[trigger] f(i) == scaled(i) && val(kernel[i])
        > 0 as real by {
        let (p, q) = (Formula::Given(raw[i]), Formula::Given(norm));
        assert(evals(ops, p.over(q), kernel[i]));
        lemma_exact_quotient(ops, val, p, q, val(raw[i]), b, kernel[i]);
        lemma_product_commutes(val(kernel[i]), b);
        assert(f(i) > 0 as real);
        lemma_positive_factor(val(kernel[i]), b);
    }
    assert forall|i: int| 0 <= i < kernel.len() implies val(#[trigger] kernel[i]) > 0 as real by {
        assert(f(i) == scaled(i));
    }
    lemma_sum_equal(f, scaled, n);
    lemma_sum_scaled(b, k, n);
    assert(product(b, sum(k, n)) == b);
    lemma_product_commutes(b, sum(k, n));
    lemma_factor_is_one(sum(k, n), b);
}

/// A factor of a positive product.
proof fn lemma_positive_factor(a: real, b: real)
    requires
        product(a, b) > 0 as real,
        b > 0 as real,
    ensures
        a > 0 as real,
{
    reveal(product);
    assert(a > 0 as real) by (nonlinear_arith)
        requires
            a * b > 0 as real,
            b > 0 as real,
    ;
}

/// What the row pass weighs at place `i`.
pub open spec fn row_around<T>(
    val: spec_fn(T) -> real,
    data: Seq<T>,
    w: int,
    r: int,
    i: int,
) -> spec_fn(int) -> real {
    |k: int| val(data[(i / w) * w + limited(i % w + k - r, w)])
}

/// What the column pass weighs at place `i`.
pub open spec fn column_around<T>(
    val: spec_fn(T) -> real,
    data: Seq<T>,
    w: int,
    h: int,
    r: int,
    i: int,
) -> spec_fn(int) -> real {
    |k: int| val(data[limited(i / w + k - r, h) * w + i % w])
}

/// The row pass in numbers.
pub proof fn lemma_row_is_weighed<T, A: Arithmetic<T>>(
    ops: &A,
    val: spec_fn(T) -> real,
    data: Seq<T>,
    kernel: Seq<T>,
    w: int,
    r: int,
    i: int,
    n: int,
)
    requires
        is_exact(ops, val),
    ensures
        denotes(
            ops,
            val,
            blurred_row(data, kernel, w, r, i, n),
            sum(weighed(row_around(val, data, w, r, i), values_of(val, kernel)), n),
        ),
    decreases n,
{
    lemma_exact_whole(ops, val, 0);
    if n > 0 {
        lemma_row_is_weighed(ops, val, data, kernel, w, r, i, n - 1);
        let x = data[(i / w) * w + limited(i % w + (n - 1) - r, w)];
        let (f, g) = (Formula::Given(x), Formula::Given(kernel[n - 1]));
        lemma_exact_product(ops, val, f, g, val(x), val(kernel[n - 1]));
        lemma_exact_binary(
            ops,
            val,
            Binary::Plus,
            blurred_row(data, kernel, w, r, i, n - 1),
            f.times(g),
            sum(weighed(row_around(val, data, w, r, i), values_of(val, kernel)), n - 1),
            product(val(x), val(kernel[n - 1])),
        );
    }
}

/// The column pass in numbers.
pub proof fn lemma_column_is_weighed<T, A: Arithmetic<T>>(
    ops: &A,
    val: spec_fn(T) -> real,
    data: Seq<T>,
    kernel: Seq<T>,
    w: int,
    h: int,
    r: int,
    i: int,
    n: int,
)
    requires
        is_exact(ops, val),
    ensures
        denotes(
            ops,
            val,
            blurred_column(data, kernel, w, h, r, i, n),
            sum(weighed(column_around(val, data, w, h, r, i), values_of(val, kernel)), n),
        ),
    decreases n,
{
    lemma_exact_whole(ops, val, 0);
    if n > 0 {
        lemma_column_is_weighed(ops, val, data, kernel, w, h, r, i, n - 1);
        let x = data[limited(i / w + (n - 1) - r, h) * w + i % w];
        let (f, g) = (Formula::Given(x), Formula::Given(kernel[n - 1]));
        lemma_exact_product(ops, val, f, g, val(x), val(kernel[n - 1]));
        lemma_exact_binary(
            ops,
            val,
            Binary::Plus,
            blurred_column(data, kernel, w, h, r, i, n - 1),
            f.times(g),
            sum(weighed(column_around(val, data, w, h, r, i), values_of(val, kernel)), n - 1),
            product(val(x), val(kernel[n - 1])),
        );
    }
}

/// The samples within `r` columns and rows of a pixel lie between two numbers.
pub open spec fn is_bounded_around<T>(
    val: spec_fn(T) -> real,
    data: Seq<T>,
    w: int,
    h: int,
    x: int,
    y: int,
    r: int,
    low: real,
    high: real,
) -> bool {
    forall|u: int, v: int|
        0 <= u < w && 0 <= v < h && x - r <= u <= x + r && y - r <= v <= y + r ==> low <= val(
            #[trigger] data[v * w + u],
        ) <= high
}

/// A blur is a mean of the samples around a pixel: it lies between the least
/// and the greatest of those within its radius, and below the greatest where
/// the pixel itself does.
pub proof fn lemma_blur_is_mean<T, A: Arithmetic<T>>(
    ops: &A,
    val: spec_fn(T) -> real,
    data: Seq<T>,
    w: int,
    h: int,
    sigma: T,
    r: usize,
    out: Seq<T>,
    x: int,
    y: int,
    low: real,
    high: real,
)
    requires
        is_exact(ops, val),
        exp_is_positive(ops, val),
        data.len() == w * h,
        0 <= x < w,
        0 <= y < h,
        is_bounded_around(val, data, w, h, x, y, r as int, low, high),
        is_blurred_with(ops, data, w, h, sigma, r, out),
    ensures
        low <= val(out[y * w + x]) <= high,
        val(data[y * w + x]) < high ==> val(out[y * w + x]) < high,
{
    let (raw, norm, kernel, rows) = choose|raw: Seq<T>, norm: T, kernel: Seq<T>, rows: Seq<T>|
        #[trigger]
        is_kernel(ops, sigma, r, raw, norm, kernel) && #[trigger] is_blurred_by(
            ops,
            data,
            w,
            h,
            r as int,
            kernel,
            rows,
            out,
        );
    lemma_kernel_is_mean(ops, val, sigma, r, raw, norm, kernel);
    let n = kernel.len() as int;
    let k = values_of(val, kernel);
    let s = r as int;
    lemma_pixel(x, y, w, h);
    let p = y * w + x;
    lemma_product_of_unit(low);
    lemma_product_of_unit(high);
    assert forall|v: int| 0 <= v < h && y - s <= v <= y + s implies low <= val(
        #[trigger] rows[v * w + x],
    ) <= high && (val(data[v * w + x]) < high ==> val(rows[v * w + x]) < high) by {
        lemma_pixel(x, v, w, h);
        let i = v * w + x;
        lemma_row_is_weighed(ops, val, data, kernel, w, s, i, n);
        assert(evals(ops, blurred_row(data, kernel, w, s, i, n), rows[i]));
        let f = row_around(val, data, w, s, i);
        assert forall|j: int| 0 <= j < n implies low <= #[trigger] f(j) <= high && k(j)
            >= 0 as real by {
            let u = limited(x + j - s, w);
            assert(low <= val(data[v * w + u]) <= high);
            assert(val(kernel[j]) > 0 as real);
        }
        lemma_weighed_bounds(f, k, n, low, high);
        if val(data[i]) < high {
            assert(f(s) == val(data[i]));
            assert(val(kernel[s]) > 0 as real);
            lemma_weighed_below(f, k, n, high, s);
        }
    }
    lemma_column_is_weighed(ops, val, rows, kernel, w, h, s, p, n);
    assert(evals(ops, blurred_column(rows, kernel, w, h, s, p, n), out[p]));
    let g = column_around(val, rows, w, h, s, p);
    assert forall|j: int| 0 <= j < n implies low <= #[trigger] g(j) <= high && k(j)
        >= 0 as real by {
        let v = limited(y + j - s, h);
        assert(low <= val(rows[v * w + x]) <= high);
        assert(val(kernel[j]) > 0 as real);
    }
    lemma_weighed_bounds(g, k, n, low, high);
    if val(data[p]) < high {
        assert(val(rows[y * w + x]) < high);
        assert(g(s) == val(rows[p]));
        assert(val(kernel[s]) > 0 as real);
        lemma_weighed_below(g, k, n, high, s);
    }
}

/// The Gaussian bell of a width around `r`.
pub open spec fn bell(ex: spec_fn(real) -> real, sigma: real, r: int) -> spec_fn(int) -> real {
    |i: int|
        ex(
            product(-((i - r) as real), (i - r) as real) / product(
                product(2 as real, sigma),
                sigma,
            ),
        )
}

/// A raw weight in numbers.
proof fn lemma_raw_weight_value<T, A: Arithmetic<T>>(
    ops: &A,
    val: spec_fn(T) -> real,
    ex: spec_fn(real) -> real,
    sigma: T,
    r: usize,
    i: int,
)
    requires
        is_exact(ops, val),
        has_exponentials(ops, val, ex),
        0 <= i <= usize::MAX,
        product(product(2 as real, val(sigma)), val(sigma)) != 0 as real,
    ensures
        denotes(ops, val, raw_weight(sigma, r, i), bell(ex, val(sigma), r as int)(i)),
{
    let (p, q) = (Formula::<T>::Count(i as usize), Formula::<T>::Count(r));
    assert(denotes(ops, val, p, i as real));
    assert(denotes(ops, val, q, r as int as real));
    lemma_exact_binary(ops, val, Binary::Minus, p, q, i as real, r as int as real);
    let (f, d) = (p.minus(q), (i - r) as real);
    let g = f.apply(Unary::Neg);
    assert forall|v: T| #[trigger] evals(ops, g, v) implies val(v) == -d by {
        let u = choose|u: T| evals(ops, f, u) && #[trigger] unary_answers(ops, Unary::Neg, u, v);
    }
    lemma_exact_product(ops, val, g, f, -d, d);
    let s = Formula::Given(sigma);
    lemma_exact_whole(ops, val, 2);
    lemma_exact_product(ops, val, whole(2), s, 2 as real, val(sigma));
    let spread = whole(2).times(s).times(s);
    lemma_exact_product(ops, val, whole(2).times(s), s, product(2 as real, val(sigma)), val(sigma));
    let (a, b) = (product(-d, d), product(product(2 as real, val(sigma)), val(sigma)));
    lemma_exact_binary(ops, val, Binary::Over, g.times(f), spread, a, b);
    let e = g.times(f).over(spread);
    assert forall|v: T| #[trigger] evals(ops, e.apply(Unary::Exp), v) implies val(v) == ex(
        a / b,
    ) by {
        let u = choose|u: T| evals(ops, e, u) && #[trigger] unary_answers(ops, Unary::Exp, u, v);
    }
}

/// The weights of a Gaussian kernel are shares of a Gaussian bell of its width.
pub proof fn lemma_kernel_is_gaussian<T, A: Arithmetic<T>>(
    ops: &A,
    val: spec_fn(T) -> real,
    ex: spec_fn(real) -> real,
    sigma: T,
    r: usize,
    raw: Seq<T>,
    norm: T,
    kernel: Seq<T>,
    i: int,
)
    requires
        is_exact(ops, val),
        has_exponentials(ops, val, ex),
        exp_is_positive(ops, val),
        product(product(2 as real, val(sigma)), val(sigma)) != 0 as real,
        is_kernel(ops, sigma, r, raw, norm, kernel),
        2 * r < usize::MAX,
        0 <= i <= 2 * r,
    ensures
        product(val(kernel[i]), sum(bell(ex, val(sigma), r as int), 2 * r + 1)) == bell(
            ex,
            val(sigma),
            r as int,
        )(i),
{
    let n = raw.len() as int;
    let (f, g) = (values_of(val, raw), bell(ex, val(sigma), r as int));
    assert forall|k: int| 0 <= k < n implies #[trigger] f(k) == g(k) && f(k) > 0 as real by {
        lemma_raw_weight_value(ops, val, ex, sigma, r, k);
        assert(evals(ops, raw_weight(sigma, r, k), raw[k]));
        lemma_raw_weight_positive(ops, val, sigma, r, k, raw[k]);
    }
    lemma_sum_equal(f, g, n);
    lemma_sum_positive(f, n);
    lemma_exact_sum(ops, val, raw, n);
    let (p, q) = (Formula::Given(raw[i]), Formula::Given(norm));
    assert(evals(ops, p.over(q), kernel[i]));
    lemma_exact_quotient(ops, val, p, q, val(raw[i]), val(norm), kernel[i]);
    assert(f(i) == g(i));
}

/// What a blur with these weights gives at a pixel: the weighted rows around it,
/// weighted, with the samples of the border beyond the border.
pub open spec fn blurred_value<T>(
    val: spec_fn(T) -> real,
    data: Seq<T>,
    k: spec_fn(int) -> real,
    w: int,
    h: int,
    r: int,
    x: int,
    y: int,
) -> real {
    sum(
        |b: int|
            product(
                sum(
                    |a: int|
                        product(
                            val(data[nearest(y + b - r, h) * w + nearest(x + a - r, w)]),
                            k(a),
                        ),
                    2 * r + 1,
                ),
                k(b),
            ),
        2 * r + 1,
    )
}

/// The line nearest to line `k` of `n`.
pub open spec fn nearest(k: int, n: int) -> int {
    if k < 0 {
        0
    } else if k < n {
        k
    } else {
        n - 1
    }
}

/// A blur weighs the samples around a pixel with one Gaussian bell across and
/// down, brought to a sum of one.
pub proof fn lemma_blur_is_gaussian<T, A: Arithmetic<T>>(
    ops: &A,
    val: spec_fn(T) -> real,
    ex: spec_fn(real) -> real,
    data: Seq<T>,
    w: int,
    h: int,
    sigma: T,
    r: usize,
    out: Seq<T>,
    x: int,
    y: int,
) -> (k: spec_fn(int) -> real)
    requires
        is_exact(ops, val),
        has_exponentials(ops, val, ex),
        exp_is_positive(ops, val),
        product(product(2 as real, val(sigma)), val(sigma)) != 0 as real,
        2 * r < usize::MAX,
        data.len() == w * h,
        0 <= x < w,
        0 <= y < h,
        is_blurred_with(ops, data, w, h, sigma, r, out),
    ensures
        forall|i: int|
            0 <= i <= 2 * r ==> product(
                #[trigger] k(i),
                sum(bell(ex, val(sigma), r as int), 2 * r + 1),
            ) == bell(ex, val(sigma), r as int)(i),
        val(out[y * w + x]) == blurred_value(val, data, k, w, h, r as int, x, y),
{
    let (raw, norm, kernel, rows) = choose|raw: Seq<T>, norm: T, kernel: Seq<T>, rows: Seq<T>|
        #[trigger]
        is_kernel(ops, sigma, r, raw, norm, kernel) && #[trigger] is_blurred_by(
            ops,
            data,
            w,
            h,
            r as int,
            kernel,
            rows,
            out,
        );
    let n = kernel.len() as int;
    let k = values_of(val, kernel);
    let s = r as int;
    assert forall|i: int| 0 <= i <= 2 * r implies product(
        #[trigger] k(i),
        sum(bell(ex, val(sigma), r as int), 2 * r + 1),
    ) == bell(ex, val(sigma), r as int)(i) by {
        lemma_kernel_is_gaussian(ops, val, ex, sigma, r, raw, norm, kernel, i);
    }
    lemma_pixel(x, y, w, h);
    let p = y * w + x;
    lemma_column_is_weighed(ops, val, rows, kernel, w, h, s, p, n);
    assert(evals(ops, blurred_column(rows, kernel, w, h, s, p, n), out[p]));
    let f = weighed(column_around(val, rows, w, h, s, p), k);
    let g = |b: int|
        product(
            sum(
                |a: int|
                    product(val(data[nearest(y + b - s, h) * w + nearest(x + a - s, w)]), k(a)),
                2 * s + 1,
            ),
            k(b),
        );
    assert forall|b: int| 0 <= b < n implies #[trigger] f(b) == g(b) by {
        let v = nearest(y + b - s, h);
        lemma_pixel(x, v, w, h);
        let i = v * w + x;
        lemma_row_is_weighed(ops, val, data, kernel, w, s, i, n);
        assert(evals(ops, blurred_row(data, kernel, w, s, i, n), rows[i]));
        let c = weighed(row_around(val, data, w, s, i), k);
        let d = |a: int|
            product(val(data[nearest(y + b - s, h) * w + nearest(x + a - s, w)]), k(a));
        lemma_sum_equal(c, d, n);
    }
    lemma_sum_equal(f, g, n);
    k
}

/// A blur reaches three sigmas, rounded up to whole pixels; without a positive
/// sigma it changes nothing.
pub proof fn lemma_blur_reaches<T, A: Arithmetic<T>>(
    ops: &A,
    val: spec_fn(T) -> real,
    data: Seq<T>,
    w: int,
    h: int,
    sigma: T,
    out: Seq<T>,
) -> (r: usize)
    requires
        is_exact(ops, val),
        rounds_exactly(ops, val),
        (3 as real) * val(sigma) <= usize::MAX as int as real,
        is_blurred(ops, data, w, h, sigma, Some(out)),
    ensures
        val(sigma) <= 0 as real ==> out == data,
        val(sigma) > 0 as real ==> is_blurred_with(ops, data, w, h, sigma, r, out) && ((r - 1)
            as real) < (3 as real) * val(sigma) && (3 as real) * val(sigma) <= (r as int as real),
{
    lemma_exact_whole(ops, val, 0);
    let off = choose|off: bool| #[trigger]
        decides(ops, Test::LessOrEqual, Formula::Given(sigma), whole(0), off) && if off {
            Some(out) == Some(data)
        } else {
            exists|r: usize| #[trigger]
                indexes(ops, radius_of(sigma), r) && 2 * r < usize::MAX && is_blurred_with(
                    ops,
                    data,
                    w,
                    h,
                    sigma,
                    r,
                    out,
                )
        };
    let (p, z) = choose|p: T, z: T|
        evals(ops, Formula::Given(sigma), p) && evals(ops, whole(0), z) && #[trigger] test_answers(
            ops,
            Test::LessOrEqual,
            p,
            z,
            off,
        );
    if off {
        0
    } else {
        let r = choose|r: usize| #[trigger]
            indexes(ops, radius_of(sigma), r) && 2 * r < usize::MAX && is_blurred_with(
                ops,
                data,
                w,
                h,
                sigma,
                r,
                out,
            );
        let f = whole(3).times(Formula::Given(sigma));
        lemma_exact_whole(ops, val, 3);
        lemma_exact_binary(
            ops,
            val,
            Binary::Times,
            whole(3),
            Formula::Given(sigma),
            3u64 as int as real,
            val(sigma),
        );
        let v = choose|v: T| evals(ops, radius_of(sigma), v) && #[trigger] index_answers(ops, v, r);
        let u = choose|u: T|
            evals(ops, f, u) && #[trigger] unary_answers(ops, Unary::Ceil, u, v);
        r
    }
}

} // verus!
