//! The background surface that gradient removal subtracts.

use super::exact::{
    denotes, into_unit, is_exact, lemma_exact_binary, lemma_exact_product, lemma_exact_ratio,
    lemma_exact_unit, lemma_exact_whole,
};
use super::order::{
    are_numbers, is_percentile_of, keys_follow, lemma_median_is_middle, lemma_median_of_equal,
    lemma_percentiles_are_exact, lemma_position_in_range, lemma_rounded, rounds_exactly, stands_at,
};
use super::reals::{
    lemma_product_commutes, lemma_product_regroups, lemma_share_of, lemma_sum_equal, product, sum,
};
use super::restoring::{lemma_exact_size, size_of};
use super::solving::{
    entries, fitted, lemma_least_squares_is_least, misfit, numbers_of, residual,
};
use crate::arith::{
    Arithmetic, Binary, Formula, Test, Unary, decides, evals, indexes, power_answers, test_answers,
    whole,
};
use crate::gradient::{
    Background, GradientParams, are_columns, are_coordinates, are_deviations, bilinear, clips_to,
    deviation, eval_size, grid_line, grid_position, is_background_level, is_clip_mask,
    is_clip_round, is_clipped, is_column, is_fit, is_flattened, is_flattened_at,
    is_gradient_free_by, is_grid_sample, is_model, is_shifted, is_spread, last_pixel, levels,
    next_line, normalized, patch_bounds, patch_radius, poly_exponents, subtracts, surface, term,
};
use crate::linear::is_least_squares;
use crate::plane::{crop_plane, lemma_pixel, lemma_place, picked};
use crate::stats::{are_percentiles, is_median, within};
use vstd::prelude::*;

verus! {

// ---------------------------------------------------------------------------
// Polynomials
// ---------------------------------------------------------------------------

/// A number to a whole power.
pub open spec fn power_of(a: real, n: int) -> real
    decreases n,
{
    if n <= 0 {
        1 as real
    } else {
        product(power_of(a, n - 1), a)
    }
}

/// Whole powers are exact.
pub open spec fn raises_exactly<T, A: Arithmetic<T>>(ops: &A, val: spec_fn(T) -> real) -> bool {
    forall|x: T, n: usize, v: T| #[trigger]
        power_answers(ops, x, n, v) ==> val(v) == power_of(val(x), n as int)
}

/// How many terms a polynomial has below degree `t`.
pub open spec fn terms_below(t: int) -> int
    decreases t,
{
    if t <= 0 {
        0
    } else {
        terms_below(t - 1) + t
    }
}

/// The first `n` terms of degree `t`: `x` to the powers from `t` down, `y` to
/// the powers from 0 on.
pub open spec fn terms_of_degree(c: spec_fn(int) -> real, x: real, y: real, t: int, n: int) -> real
    decreases n,
{
    if n <= 0 {
        0 as real
    } else {
        terms_of_degree(c, x, y, t, n - 1) + product(
            c(terms_below(t) + n - 1),
            product(power_of(x, t - (n - 1)), power_of(y, n - 1)),
        )
    }
}

/// The polynomial of an order in `x` and `y`, its coefficients degree by
/// degree.
pub open spec fn polynomial(c: spec_fn(int) -> real, x: real, y: real, order: int) -> real
    decreases order + 1,
{
    if order < 0 {
        0 as real
    } else {
        polynomial(c, x, y, order - 1) + terms_of_degree(c, x, y, order, order + 1)
    }
}

/// The terms of a polynomial as its exponents list them.
pub open spec fn listed(
    c: spec_fn(int) -> real,
    exps: Seq<(usize, usize)>,
    x: real,
    y: real,
) -> spec_fn(int) -> real {
    |j: int| product(c(j), product(power_of(x, exps[j].0 as int), power_of(y, exps[j].1 as int)))
}

/// The exponents of an order.
proof fn lemma_exponents(order: int, j: int)
    requires
        -1 <= order <= usize::MAX,
    ensures
        poly_exponents(order).len() == terms_below(order + 1),
        0 <= terms_below(order + 1),
        0 <= order && terms_below(order) <= j < terms_below(order + 1) ==> poly_exponents(order)[j]
            == ((order - (j - terms_below(order))) as usize, (j - terms_below(order)) as usize),
        0 <= order && 0 <= j < terms_below(order) ==> poly_exponents(order)[j] == poly_exponents(
            order - 1,
        )[j],
    decreases order + 1,
{
    if order >= 0 {
        lemma_exponents(order - 1, j);
    }
}

/// The listed terms of the last degree.
proof fn lemma_listed_degree(
    c: spec_fn(int) -> real,
    order: int,
    x: real,
    y: real,
    n: int,
)
    requires
        0 <= order <= usize::MAX,
        0 <= n <= order + 1,
    ensures
        sum(listed(c, poly_exponents(order), x, y), terms_below(order) + n) == sum(
            listed(c, poly_exponents(order), x, y),
            terms_below(order),
        ) + terms_of_degree(c, x, y, order, n),
    decreases n,
{
    if n > 0 {
        lemma_listed_degree(c, order, x, y, n - 1);
        lemma_exponents(order - 1, 0);
        lemma_exponents(order, terms_below(order) + n - 1);
    }
}

/// A polynomial is the sum of its listed terms.
proof fn lemma_listed_polynomial(c: spec_fn(int) -> real, order: int, x: real, y: real)
    requires
        -1 <= order <= usize::MAX,
    ensures
        sum(listed(c, poly_exponents(order), x, y), poly_exponents(order).len() as int)
            == polynomial(c, x, y, order),
    decreases order + 1,
{
    lemma_exponents(order, 0);
    if order >= 0 {
        lemma_listed_polynomial(c, order - 1, x, y);
        lemma_exponents(order - 1, 0);
        let f = listed(c, poly_exponents(order), x, y);
        let g = listed(c, poly_exponents(order - 1), x, y);
        assert forall|j: int| 0 <= j < terms_below(order) implies #[trigger] f(j) == g(j) by {
            lemma_exponents(order, j);
        }
        lemma_sum_equal(f, g, terms_below(order));
        lemma_listed_degree(c, order, x, y, order + 1);
    }
}

/// A pixel as a coordinate from -1 to 1.
pub open spec fn coordinate(k: int, last: int) -> real {
    product((k as real) / (last as real), 2 as real) - 1 as real
}

/// The last pixel of a dimension, at least 1.
pub open spec fn end_of(n: int) -> int {
    if n < 2 {
        1
    } else {
        n - 1
    }
}

/// A coordinate in numbers.
proof fn lemma_coordinate<T, A: Arithmetic<T>>(
    ops: &A,
    val: spec_fn(T) -> real,
    k: usize,
    last: usize,
)
    requires
        is_exact(ops, val),
        last >= 1,
    ensures
        denotes(ops, val, normalized(k, last), coordinate(k as int, last as int)),
{
    let (f, g) = (Formula::<T>::Count(k), Formula::<T>::Count(last));
    let (a, b) = (k as int as real, last as int as real);
    assert(denotes(ops, val, f, a));
    assert(denotes(ops, val, g, b));
    lemma_exact_binary(ops, val, Binary::Over, f, g, a, b);
    lemma_exact_whole(ops, val, 1);
    lemma_exact_whole(ops, val, 2);
    lemma_exact_product(ops, val, f.over(g), whole(2), a / b, 2 as real);
    lemma_exact_binary(
        ops,
        val,
        Binary::Minus,
        f.over(g).times(whole(2)),
        whole(1),
        product(a / b, 2 as real),
        1 as real,
    );
}

/// A whole power in numbers.
proof fn lemma_power<T, A: Arithmetic<T>>(
    ops: &A,
    val: spec_fn(T) -> real,
    f: Formula<T>,
    a: real,
    n: usize,
)
    requires
        raises_exactly(ops, val),
        denotes(ops, val, f, a),
    ensures
        denotes(ops, val, f.power(n), power_of(a, n as int)),
{
    assert forall|v: T| #[trigger] evals(ops, f.power(n), v) implies val(v) == power_of(
        a,
        n as int,
    ) by {
        let x = choose|x: T| evals(ops, f, x) && #[trigger] power_answers(ops, x, n, v);
    }
}

// ---------------------------------------------------------------------------
// The fit
// ---------------------------------------------------------------------------

/// The squared distance of the background samples from a polynomial.
pub open spec fn distance_from<T>(
    val: spec_fn(T) -> real,
    samples: Seq<Background<T>>,
    w: int,
    h: int,
    order: int,
    c: spec_fn(int) -> real,
) -> real {
    sum(
        |k: int|
            product(
                val(samples[k].2) - polynomial(
                    c,
                    coordinate(samples[k].1 as int, end_of(w)),
                    coordinate(samples[k].0 as int, end_of(h)),
                    order,
                ),
                val(samples[k].2) - polynomial(
                    c,
                    coordinate(samples[k].1 as int, end_of(w)),
                    coordinate(samples[k].0 as int, end_of(h)),
                    order,
                ),
            ),
        samples.len() as int,
    )
}

/// What the columns with some weights add up to is the polynomial with these
/// coefficients.
proof fn lemma_fitted_is_polynomial<T, A: Arithmetic<T>>(
    ops: &A,
    val: spec_fn(T) -> real,
    samples: Seq<Background<T>>,
    w: int,
    h: int,
    order: int,
    xn: Seq<T>,
    yn: Seq<T>,
    columns: Seq<Seq<T>>,
    c: spec_fn(int) -> real,
    p: int,
)
    requires
        is_exact(ops, val),
        raises_exactly(ops, val),
        1 <= w <= usize::MAX,
        1 <= h <= usize::MAX,
        0 <= order <= usize::MAX,
        are_coordinates(ops, samples, w, h, xn, yn),
        are_columns(ops, xn, yn, poly_exponents(order), columns),
        0 <= p < samples.len(),
    ensures
        fitted(entries(val, columns), c, columns.len() as int, p) == polynomial(
            c,
            coordinate(samples[p].1 as int, end_of(w)),
            coordinate(samples[p].0 as int, end_of(h)),
            order,
        ),
{
    let exps = poly_exponents(order);
    let x = coordinate(samples[p].1 as int, end_of(w));
    let y = coordinate(samples[p].0 as int, end_of(h));
    lemma_coordinate(ops, val, samples[p].1, last_pixel(w));
    lemma_coordinate(ops, val, samples[p].0, last_pixel(h));
    assert(val(xn[p]) == x);
    assert(val(yn[p]) == y);
    let f = |j: int| product(c(j), entries(val, columns)(j, p));
    let g = listed(c, exps, x, y);
    assert forall|j: int| 0 <= j < columns.len() implies #[trigger] f(j) == g(j) by {
        let e = exps[j];
        assert(is_column(ops, xn, yn, e, columns[j]));
        assert(evals(ops, term(xn[p], yn[p], e), columns[j][p]));
        let (a, b) = (Formula::Given(xn[p]), Formula::Given(yn[p]));
        lemma_power(ops, val, a, x, e.0);
        lemma_power(ops, val, b, y, e.1);
        lemma_exact_product(
            ops,
            val,
            a.power(e.0),
            b.power(e.1),
            power_of(x, e.0 as int),
            power_of(y, e.1 as int),
        );
    }
    lemma_sum_equal(f, g, columns.len() as int);
    lemma_listed_polynomial(c, order, x, y);
}

/// The misfit of weights is the squared distance from their polynomial.
proof fn lemma_misfit_is_distance<T, A: Arithmetic<T>>(
    ops: &A,
    val: spec_fn(T) -> real,
    samples: Seq<Background<T>>,
    w: int,
    h: int,
    order: int,
    xn: Seq<T>,
    yn: Seq<T>,
    columns: Seq<Seq<T>>,
    c: spec_fn(int) -> real,
)
    requires
        is_exact(ops, val),
        raises_exactly(ops, val),
        1 <= w <= usize::MAX,
        1 <= h <= usize::MAX,
        0 <= order <= usize::MAX,
        are_coordinates(ops, samples, w, h, xn, yn),
        are_columns(ops, xn, yn, poly_exponents(order), columns),
    ensures
        misfit(
            entries(val, columns),
            numbers_of(val, levels(samples)),
            c,
            columns.len() as int,
            samples.len() as int,
        ) == distance_from(val, samples, w, h, order, c),
{
    let (e, v) = (entries(val, columns), numbers_of(val, levels(samples)));
    let m = columns.len() as int;
    let n = samples.len() as int;
    let f = |p: int| product(residual(e, v, c, m, p), residual(e, v, c, m, p));
    let g = |k: int|
        product(
            val(samples[k].2) - polynomial(
                c,
                coordinate(samples[k].1 as int, end_of(w)),
                coordinate(samples[k].0 as int, end_of(h)),
                order,
            ),
            val(samples[k].2) - polynomial(
                c,
                coordinate(samples[k].1 as int, end_of(w)),
                coordinate(samples[k].0 as int, end_of(h)),
                order,
            ),
        );
    assert forall|p: int| 0 <= p < n implies #[trigger] f(p) == g(p) by {
        lemma_fitted_is_polynomial(ops, val, samples, w, h, order, xn, yn, columns, c, p);
        assert(levels(samples)[p] == samples[p].2);
    }
    lemma_sum_equal(f, g, n);
}

/// The fitted surface is the polynomial of its order that is closest to the
/// background samples: no other one has a smaller sum of squared distances.
pub proof fn lemma_fit_is_closest<T, A: Arithmetic<T>>(
    ops: &A,
    val: spec_fn(T) -> real,
    samples: Seq<Background<T>>,
    w: int,
    h: int,
    order: int,
    coeffs: Seq<T>,
    other: spec_fn(int) -> real,
)
    requires
        is_exact(ops, val),
        raises_exactly(ops, val),
        1 <= w <= usize::MAX,
        1 <= h <= usize::MAX,
        0 <= order <= usize::MAX,
        is_fit(ops, samples, w, h, order, Some(coeffs)),
    ensures
        coeffs.len() == terms_below(order + 1),
        distance_from(val, samples, w, h, order, numbers_of(val, coeffs)) <= distance_from(
            val,
            samples,
            w,
            h,
            order,
            other,
        ),
{
    let (xn, yn, columns) = choose|xn: Seq<T>, yn: Seq<T>, columns: Seq<Seq<T>>| #[trigger]
        are_coordinates(ops, samples, w, h, xn, yn) && #[trigger] are_columns(
            ops,
            xn,
            yn,
            poly_exponents(order),
            columns,
        ) && is_least_squares(ops, columns, levels(samples), Some(coeffs));
    lemma_exponents(order, 0);
    assert forall|j: int| 0 <= j < columns.len() implies (#[trigger] columns[j]).len() == levels(
        samples,
    ).len() by {
        assert(is_column(ops, xn, yn, poly_exponents(order)[j], columns[j]));
    }
    lemma_least_squares_is_least(ops, val, columns, levels(samples), coeffs, other);
    lemma_misfit_is_distance(
        ops,
        val,
        samples,
        w,
        h,
        order,
        xn,
        yn,
        columns,
        numbers_of(val, coeffs),
    );
    lemma_misfit_is_distance(ops, val, samples, w, h, order, xn, yn, columns, other);
}

// ---------------------------------------------------------------------------
// The subtraction
// ---------------------------------------------------------------------------

/// Three factors in two groupings.
proof fn lemma_regrouped(a: real, b: real, c: real)
    ensures
        product(product(a, b), c) == product(a, product(b, c)),
{
    lemma_product_commutes(product(a, b), c);
    lemma_product_regroups(c, a, b);
    lemma_product_commutes(c, b);
}

/// The first `n` terms of the surface in numbers.
proof fn lemma_surface_value<T, A: Arithmetic<T>>(
    ops: &A,
    val: spec_fn(T) -> real,
    coeffs: Seq<T>,
    exps: Seq<(usize, usize)>,
    fx: Formula<T>,
    fy: Formula<T>,
    x: real,
    y: real,
    n: int,
)
    requires
        is_exact(ops, val),
        raises_exactly(ops, val),
        denotes(ops, val, fx, x),
        denotes(ops, val, fy, y),
    ensures
        denotes(
            ops,
            val,
            surface(coeffs, exps, fx, fy, n),
            sum(listed(numbers_of(val, coeffs), exps, x, y), n),
        ),
    decreases n,
{
    lemma_exact_whole(ops, val, 0);
    if n > 0 {
        lemma_surface_value(ops, val, coeffs, exps, fx, fy, x, y, n - 1);
        let e = exps[n - 1];
        let c = coeffs[n - 1];
        let (a, b) = (power_of(x, e.0 as int), power_of(y, e.1 as int));
        lemma_power(ops, val, fx, x, e.0);
        lemma_power(ops, val, fy, y, e.1);
        let part = Formula::Given(c).times(fx.power(e.0));
        lemma_exact_product(ops, val, Formula::Given(c), fx.power(e.0), val(c), a);
        lemma_exact_product(ops, val, part, fy.power(e.1), product(val(c), a), b);
        lemma_regrouped(val(c), a, b);
        lemma_exact_binary(
            ops,
            val,
            Binary::Plus,
            surface(coeffs, exps, fx, fy, n - 1),
            part.times(fy.power(e.1)),
            sum(listed(numbers_of(val, coeffs), exps, x, y), n - 1),
            product(val(c), product(a, b)),
        );
    }
}

/// The side of the grid of nodes that carries the surface: the smaller
/// dimension, at least 2 and at most 256.
pub open spec fn nodes_for(w: int, h: int) -> int {
    let m = if w < h {
        w
    } else {
        h
    };
    if m < 2 {
        2
    } else if m < 256 {
        m
    } else {
        256
    }
}

/// The polynomial at node `(gx, gy)`.
pub open spec fn at_node(c: spec_fn(int) -> real, order: int, size: int, gx: int, gy: int) -> real {
    polynomial(c, coordinate(gx, size - 1), coordinate(gy, size - 1), order)
}

/// Where pixel `k` of `n` lies among the nodes.
pub open spec fn node_position(k: int, n: int, size: int) -> real {
    product((k as real) / (end_of(n) as real), (size - 1) as real)
}

/// The node behind a given one, or the last.
pub open spec fn node_after(k: int, size: int) -> int {
    if k + 1 < size {
        k + 1
    } else {
        size - 1
    }
}

/// Four numbers at the corners of a cell, blended by how far a point lies into
/// the cell.
pub open spec fn blend(a: real, b: real, c: real, d: real, fx: real, fy: real) -> real {
    product(product(a, 1 as real - fx), 1 as real - fy) + product(product(b, fx), 1 as real - fy)
        + product(product(c, 1 as real - fx), fy) + product(product(d, fx), fy)
}

/// `s` is the surface at pixel `(x, y)`: the polynomial at the four nodes around
/// it, blended.
pub open spec fn is_surface_at(
    c: spec_fn(int) -> real,
    order: int,
    w: int,
    h: int,
    x: int,
    y: int,
    k: int,
    l: int,
    s: real,
) -> bool {
    let size = nodes_for(w, h);
    let (u, v) = (node_position(x, w, size), node_position(y, h, size));
    &&& k as real <= u < (k + 1) as real
    &&& l as real <= v < (l + 1) as real
    &&& s == blend(
        at_node(c, order, size, k, l),
        at_node(c, order, size, node_after(k, size), l),
        at_node(c, order, size, k, node_after(l, size)),
        at_node(c, order, size, node_after(k, size), node_after(l, size)),
        u - k as real,
        v - l as real,
    )
}

/// A node of the model in numbers.
proof fn lemma_node_value<T, A: Arithmetic<T>>(
    ops: &A,
    val: spec_fn(T) -> real,
    coeffs: Seq<T>,
    order: int,
    size: int,
    model: Seq<T>,
    gx: int,
    gy: int,
)
    requires
        is_exact(ops, val),
        raises_exactly(ops, val),
        0 <= order <= usize::MAX,
        2 <= size <= 256,
        is_model(ops, coeffs, poly_exponents(order), size, model),
        0 <= gx < size,
        0 <= gy < size,
    ensures
        0 <= gy * size + gx < model.len(),
        val(model[gy * size + gx]) == at_node(numbers_of(val, coeffs), order, size, gx, gy),
{
    lemma_pixel(gx, gy, size, size);
    let i = gy * size + gx;
    let exps = poly_exponents(order);
    let last = (size - 1) as usize;
    lemma_coordinate(ops, val, gx as usize, last);
    lemma_coordinate(ops, val, gy as usize, last);
    let (x, y) = (coordinate(gx, size - 1), coordinate(gy, size - 1));
    lemma_surface_value(
        ops,
        val,
        coeffs,
        exps,
        normalized(gx as usize, last),
        normalized(gy as usize, last),
        x,
        y,
        exps.len() as int,
    );
    lemma_listed_polynomial(numbers_of(val, coeffs), order, x, y);
    assert(evals(
        ops,
        surface(
            coeffs,
            exps,
            normalized((i % size) as usize, last),
            normalized((i / size) as usize, last),
            exps.len() as int,
        ),
        model[i],
    ));
}

/// The position of a pixel among the nodes, and the node up to it.
proof fn lemma_position<T, A: Arithmetic<T>>(
    ops: &A,
    val: spec_fn(T) -> real,
    k: int,
    n: int,
    size: int,
    s: T,
    f: usize,
)
    requires
        is_exact(ops, val),
        rounds_exactly(ops, val),
        0 <= k < n <= usize::MAX,
        2 <= size <= 256,
        evals(ops, grid_position(k, n, size), s),
        indexes(ops, Formula::Given(s).apply(Unary::Floor), f),
    ensures
        val(s) == node_position(k, n, size),
        f < size,
        f as int as real <= val(s) < (f + 1) as real,
{
    let (a, b) = (Formula::<T>::Count(k as usize), Formula::<T>::Count(last_pixel(n)));
    let (p, q) = (k as real, end_of(n) as real);
    assert(denotes(ops, val, a, p));
    assert(denotes(ops, val, b, q));
    lemma_exact_binary(ops, val, Binary::Over, a, b, p, q);
    let c = Formula::<T>::Count((size - 1) as usize);
    let m = (size - 1) as real;
    assert(denotes(ops, val, c, m));
    lemma_exact_product(ops, val, a.over(b), c, p / q, m);
    lemma_share_of(p, q);
    lemma_position_in_range(p / q, size);
    assert((size - 1) as real <= usize::MAX as int as real);
    lemma_rounded(ops, val, s, Unary::Floor, f);
    lemma_node_in_range(f as int, size, val(s));
}

/// The whole part of a position is a node.
#[verifier::spinoff_prover]
proof fn lemma_node_in_range(f: int, size: int, s: real)
    requires
        f as real <= s,
        s <= (size - 1) as real,
    ensures
        f < size,
{
}

/// One corner of a cell.
proof fn lemma_corner<T, A: Arithmetic<T>>(
    ops: &A,
    val: spec_fn(T) -> real,
    m: T,
    f: Formula<T>,
    g: Formula<T>,
    a: real,
    b: real,
)
    requires
        is_exact(ops, val),
        denotes(ops, val, f, a),
        denotes(ops, val, g, b),
    ensures
        denotes(ops, val, Formula::Given(m).times(f).times(g), product(product(val(m), a), b)),
{
    lemma_exact_product(ops, val, Formula::Given(m), f, val(m), a);
    lemma_exact_product(ops, val, Formula::Given(m).times(f), g, product(val(m), a), b);
}

/// One sample with the surface subtracted.
proof fn lemma_flattened_value<T, A: Arithmetic<T>>(
    ops: &A,
    val: spec_fn(T) -> real,
    data: Seq<T>,
    w: int,
    h: int,
    coeffs: Seq<T>,
    order: int,
    model: Seq<T>,
    i: int,
    r: T,
)
    requires
        is_exact(ops, val),
        raises_exactly(ops, val),
        rounds_exactly(ops, val),
        1 <= w <= usize::MAX,
        1 <= h <= usize::MAX,
        0 <= order <= usize::MAX,
        0 <= i < w * h,
        is_model(ops, coeffs, poly_exponents(order), eval_size(w, h), model),
        is_flattened_at(ops, data, w, h, model, eval_size(w, h), i, r),
    ensures
        is_sample_less_surface(
            numbers_of(val, coeffs),
            order,
            w,
            h,
            i,
            val(data[i]),
            val(r),
        ),
{
    lemma_place(i, w, h);
    let size = eval_size(w, h);
    assert(size == nodes_for(w, h));
    let (sx, sy, fx, fy) = choose|sx: T, sy: T, fx: usize, fy: usize|
        evals(ops, grid_position(i % w, w, size), sx) && evals(
            ops,
            grid_position(i / w, h, size),
            sy,
        ) && indexes(
            ops,
            Formula::Given(sx).apply(Unary::Floor),
            fx,
        ) && indexes(ops, Formula::Given(sy).apply(Unary::Floor), fy)
            && #[trigger] subtracts(
            ops,
            data[i],
            model,
            size,
            sx,
            sy,
            within(fx, size),
            within(fy, size),
            r,
        );
    lemma_position(ops, val, i % w, w, size, sx, fx);
    lemma_position(ops, val, i / w, h, size, sy, fy);
    let (k, l) = (fx as int, fy as int);
    let (k1, l1) = (next_line(k, size), next_line(l, size));
    lemma_node_value(ops, val, coeffs, order, size, model, k, l);
    lemma_node_value(ops, val, coeffs, order, size, model, k1, l);
    lemma_node_value(ops, val, coeffs, order, size, model, k, l1);
    lemma_node_value(ops, val, coeffs, order, size, model, k1, l1);
    let (a, b) = (val(sx) - k as real, val(sy) - l as real);
    let (px, py) = (
        Formula::Given(sx).minus(Formula::Count(fx)),
        Formula::Given(sy).minus(Formula::Count(fy)),
    );
    assert(denotes(ops, val, Formula::<T>::Count(fx), k as real));
    assert(denotes(ops, val, Formula::<T>::Count(fy), l as real));
    lemma_exact_binary(
        ops,
        val,
        Binary::Minus,
        Formula::Given(sx),
        Formula::Count(fx),
        val(sx),
        k as real,
    );
    lemma_exact_binary(
        ops,
        val,
        Binary::Minus,
        Formula::Given(sy),
        Formula::Count(fy),
        val(sy),
        l as real,
    );
    lemma_exact_whole(ops, val, 1);
    let one = 1u64 as int as real;
    let (gx, gy) = (whole(1).minus(px), whole(1).minus(py));
    lemma_exact_binary(ops, val, Binary::Minus, whole(1), px, one, a);
    lemma_exact_binary(ops, val, Binary::Minus, whole(1), py, one, b);
    let (m0, m1, m2, m3) = (
        model[l * size + k],
        model[l * size + k1],
        model[l1 * size + k],
        model[l1 * size + k1],
    );
    lemma_corner(ops, val, m0, gx, gy, one - a, one - b);
    lemma_corner(ops, val, m1, px, gy, a, one - b);
    lemma_corner(ops, val, m2, gx, py, one - a, b);
    lemma_corner(ops, val, m3, px, py, a, b);
    let c0 = Formula::Given(m0).times(gx).times(gy);
    let c1 = Formula::Given(m1).times(px).times(gy);
    let c2 = Formula::Given(m2).times(gx).times(py);
    let c3 = Formula::Given(m3).times(px).times(py);
    let v0 = product(product(val(m0), one - a), one - b);
    let v1 = product(product(val(m1), a), one - b);
    let v2 = product(product(val(m2), one - a), b);
    let v3 = product(product(val(m3), a), b);
    lemma_exact_binary(ops, val, Binary::Plus, c0, c1, v0, v1);
    lemma_exact_binary(ops, val, Binary::Plus, c0.plus(c1), c2, v0 + v1, v2);
    lemma_exact_binary(ops, val, Binary::Plus, c0.plus(c1).plus(c2), c3, v0 + v1 + v2, v3);
    let s = v0 + v1 + v2 + v3;
    let level = c0.plus(c1).plus(c2).plus(c3);
    assert(bilinear(model, size, sx, sy, fx, fy) == level);
    lemma_exact_binary(ops, val, Binary::Minus, Formula::Given(data[i]), level, val(data[i]), s);
    reveal(is_sample_less_surface);
    assert(is_surface_at(numbers_of(val, coeffs), order, w, h, i % w, i / w, k, l, s));
}

/// Every sample is a number.
pub open spec fn has_only_numbers<T, A: Arithmetic<T>>(ops: &A) -> bool {
    forall|v: T, r: bool| #[trigger] call_ensures(A::is_nan, (ops, v), r) ==> !r
}

/// `flat` is the plane less the surface.
pub open spec fn is_less_surface<T>(
    val: spec_fn(T) -> real,
    data: Seq<T>,
    w: int,
    h: int,
    c: spec_fn(int) -> real,
    order: int,
    flat: Seq<T>,
) -> bool {
    &&& flat.len() == data.len()
    &&& forall|i: int|
        0 <= i < data.len() ==> is_sample_less_surface(
            c,
            order,
            w,
            h,
            i,
            val(data[i]),
            val(#[trigger] flat[i]),
        )
}

/// `r` is the number `v` at place `i` less the surface there.
#[verifier::opaque]
pub open spec fn is_sample_less_surface(
    c: spec_fn(int) -> real,
    order: int,
    w: int,
    h: int,
    i: int,
    v: real,
    r: real,
) -> bool {
    exists|k: int, l: int, s: real| #[trigger]
        is_surface_at(c, order, w, h, i % w, i / w, k, l, s) && r == v - s
}

/// `out` is the plane less the fitted surface, with the first percentile of
/// what is left moved to zero, within the unit range.
pub open spec fn is_leveled<T>(
    val: spec_fn(T) -> real,
    data: Seq<T>,
    w: int,
    h: int,
    c: spec_fn(int) -> real,
    order: int,
    flat: Seq<T>,
    level: real,
    out: Seq<T>,
) -> bool {
    &&& is_less_surface(val, data, w, h, c, order, flat)
    &&& is_percentile_of(val, flat, 1 as real, level)
    &&& is_moved(val, flat, level, out)
}

/// Gradient removal subtracts the fitted surface, pixel by pixel, and moves the
/// first percentile of what is left to zero, within the unit range. A channel
/// without a fit stays as it is.
pub proof fn lemma_surface_is_subtracted<T, A: Arithmetic<T>>(
    ops: &A,
    val: spec_fn(T) -> real,
    params: GradientParams<T>,
    data: Seq<T>,
    w: int,
    h: int,
    samples: Seq<Background<T>>,
    kept: Seq<Background<T>>,
    coeffs: Option<Seq<T>>,
    out: Seq<T>,
) -> (r: (Seq<T>, real))
    requires
        is_exact(ops, val),
        raises_exactly(ops, val),
        rounds_exactly(ops, val),
        keys_follow(ops, val),
        has_only_numbers(ops),
        1 <= w <= usize::MAX,
        1 <= h <= usize::MAX,
        data.len() == w * h,
        1 <= data.len() <= usize::MAX,
        is_gradient_free_by(ops, params, data, w, h, samples, kept, coeffs, out),
    ensures
        match coeffs {
            None => out == data,
            Some(c) => is_leveled(
                val,
                data,
                w,
                h,
                numbers_of(val, c),
                params.order as int,
                r.0,
                r.1,
                out,
            ),
        },
{
    match coeffs {
        None => (data, 0 as real),
        Some(c) => {
            let order = params.order as int;
            let (model, flat, level) = choose|model: Seq<T>, flat: Seq<T>, level: T| #[trigger]
                is_model(ops, c, poly_exponents(order), eval_size(w, h), model)
                    && #[trigger] is_flattened(ops, data, w, h, model, flat)
                    && #[trigger] is_shifted(ops, flat, level, out) && is_background_level(
                    ops,
                    flat,
                    level,
                );
            lemma_flattened_plane(ops, val, data, w, h, c, order, model, flat);
            lemma_background_is_moved(ops, val, flat, level, out);
            (flat, val(level))
        },
    }
}

/// A plane with the surface subtracted.
#[verifier::spinoff_prover]
proof fn lemma_flattened_plane<T, A: Arithmetic<T>>(
    ops: &A,
    val: spec_fn(T) -> real,
    data: Seq<T>,
    w: int,
    h: int,
    coeffs: Seq<T>,
    order: int,
    model: Seq<T>,
    flat: Seq<T>,
)
    requires
        is_exact(ops, val),
        raises_exactly(ops, val),
        rounds_exactly(ops, val),
        1 <= w <= usize::MAX,
        1 <= h <= usize::MAX,
        0 <= order <= usize::MAX,
        data.len() == w * h,
        is_model(ops, coeffs, poly_exponents(order), eval_size(w, h), model),
        is_flattened(ops, data, w, h, model, flat),
    ensures
        is_less_surface(val, data, w, h, numbers_of(val, coeffs), order, flat),
{
    assert forall|i: int| 0 <= i < data.len() implies is_sample_less_surface(
        numbers_of(val, coeffs),
        order,
        w,
        h,
        i,
        val(data[i]),
        val(#[trigger] flat[i]),
    ) by {
        assert(is_flattened_at(ops, data, w, h, model, eval_size(w, h), i, flat[i]));
        lemma_flattened_value(ops, val, data, w, h, coeffs, order, model, i, flat[i]);
    }
}

/// The background of a flattened plane is moved to zero.
#[verifier::spinoff_prover]
proof fn lemma_background_is_moved<T, A: Arithmetic<T>>(
    ops: &A,
    val: spec_fn(T) -> real,
    flat: Seq<T>,
    level: T,
    out: Seq<T>,
)
    requires
        is_exact(ops, val),
        rounds_exactly(ops, val),
        keys_follow(ops, val),
        has_only_numbers(ops),
        1 <= flat.len() <= usize::MAX,
        is_shifted(ops, flat, level, out),
        is_background_level(ops, flat, level),
    ensures
        is_percentile_of(val, flat, 1 as real, val(level)),
        is_moved(val, flat, val(level), out),
{
    let (p, high) = choose|p: T, high: T|
        evals(ops, whole(1), p) && #[trigger] are_percentiles(ops, flat, p, p, level, high);
    lemma_exact_whole(ops, val, 1);
    assert(are_numbers(ops, flat));
    lemma_percentiles_are_exact(ops, val, flat, p, p, level, high);
    assert forall|i: int| 0 <= i < flat.len() implies val(#[trigger] out[i]) == into_unit(
        val(flat[i]) - val(level),
    ) by {
        let (f, g) = (Formula::Given(flat[i]), Formula::Given(level));
        lemma_exact_binary(ops, val, Binary::Minus, f, g, val(flat[i]), val(level));
        lemma_exact_unit(ops, val, f.minus(g), val(flat[i]) - val(level));
        assert(evals(ops, f.minus(g).unit(), out[i]));
    }
}

/// `out` is the plane less a level, within the unit range.
pub open spec fn is_moved<T>(
    val: spec_fn(T) -> real,
    flat: Seq<T>,
    level: real,
    out: Seq<T>,
) -> bool {
    &&& out.len() == flat.len()
    &&& forall|i: int|
        0 <= i < flat.len() ==> val(#[trigger] out[i]) == into_unit(val(flat[i]) - level)
}

// ---------------------------------------------------------------------------
// The background samples
// ---------------------------------------------------------------------------

/// How far a background sample looks in a dimension of `n` pixels: half the
/// distance of the grid lines, at least one pixel.
pub open spec fn patch_reach(n: int, grid: int) -> int {
    if n < 2 * grid {
        1
    } else {
        n / (2 * grid)
    }
}

/// The pixels of a plane from `(left, top)` up to `(right, bottom)`, row by row.
pub open spec fn patch_of<T>(
    data: Seq<T>,
    w: int,
    left: int,
    top: int,
    right: int,
    bottom: int,
) -> Seq<T> {
    let cols = right - left + 1;
    Seq::new(
        (cols * (bottom - top + 1)) as nat,
        |i: int| data[(top + i / cols) * w + (left + i % cols)],
    )
}

/// The first pixel of a patch around a pixel.
pub open spec fn patch_start(center: int, reach: int) -> int {
    if center < reach {
        0
    } else {
        center - reach
    }
}

/// The last pixel of a patch around a pixel.
pub open spec fn patch_end(center: int, reach: int, n: int) -> int {
    if center + reach < n {
        center + reach
    } else {
        n - 1
    }
}

/// The background is sampled on an even grid with as many lines as the
/// parameters say, at least two: line `g` of `grid` lies on the
/// last pixel up to its share of the dimension. A sample is the median of the
/// patch around it, and over a patch of even brightness it has that brightness.
pub proof fn lemma_background_samples<T, A: Arithmetic<T>>(
    ops: &A,
    val: spec_fn(T) -> real,
    params: GradientParams<T>,
    data: Seq<T>,
    w: int,
    h: int,
    samples: Seq<Background<T>>,
    kept: Seq<Background<T>>,
    coeffs: Option<Seq<T>>,
    out: Seq<T>,
    grid: int,
    k: int,
    s: Background<T>,
    b: real,
)
    requires
        is_exact(ops, val),
        keys_follow(ops, val),
        1 <= w <= usize::MAX,
        1 <= h <= usize::MAX,
        data.len() == w * h,
        is_gradient_free_by(ops, params, data, w, h, samples, kept, coeffs, out),
        grid == if params.sample_grid < 2 {
            2
        } else {
            params.sample_grid as int
        },
        0 <= k < samples.len(),
        s == samples[k],
    ensures
        samples.len() == grid * grid,
        0 <= s.0 < h,
        0 <= s.1 < w,
        s.0 * (grid - 1) <= (k / grid) * (h - 1) < (s.0 + 1) * (grid - 1),
        s.1 * (grid - 1) <= (k % grid) * (w - 1) < (s.1 + 1) * (grid - 1),
        is_median(
            ops,
            patch_of(
                data,
                w,
                patch_start(s.1 as int, patch_reach(w, grid)),
                patch_start(s.0 as int, patch_reach(h, grid)),
                patch_end(s.1 as int, patch_reach(w, grid), w),
                patch_end(s.0 as int, patch_reach(h, grid), h),
            ),
            s.2,
        ),
        (forall|x: int, y: int|
            0 <= x < w && 0 <= y < h && s.1 - patch_reach(w, grid) <= x <= s.1 + patch_reach(
                w,
                grid,
            ) && s.0 - patch_reach(h, grid) <= y <= s.0 + patch_reach(h, grid) ==> val(
                #[trigger] data[y * w + x],
            ) == b) ==> val(s.2) == b,
{
    assert(is_grid_sample(ops, data, w, h, grid, k, s));
    lemma_place(k, grid, grid);
    lemma_grid_line(k / grid, h, grid);
    lemma_grid_line(k % grid, w, grid);
    let (x, y) = (s.1 as int, s.0 as int);
    lemma_patch_reach(w, grid);
    lemma_patch_reach(h, grid);
    let bounds = patch_bounds(x, y, w, h, grid);
    let patch = crop_plane(data, w, h, bounds);
    lemma_patch_is_cropped(data, w, h, x, y, grid);
    if forall|x: int, y: int|
        0 <= x < w && 0 <= y < h && s.1 - patch_reach(w, grid) <= x <= s.1 + patch_reach(w, grid)
            && s.0 - patch_reach(h, grid) <= y <= s.0 + patch_reach(h, grid) ==> val(
            #[trigger] data[y * w + x],
        ) == b {
        let cols = w - bounds.2 - bounds.3;
        let rows = h - bounds.0 - bounds.1;
        assert(cols * rows >= 1) by (nonlinear_arith)
            requires
                cols >= 1,
                rows >= 1,
        ;
        assert forall|i: int| 0 <= i < patch.len() implies val(#[trigger] patch[i]) == b by {
            lemma_place(i, cols, rows);
            let (u, v) = (bounds.2 + i % cols, bounds.0 + i / cols);
            assert((bounds.0 + i / cols) * w + bounds.2 + i % cols == v * w + u);
            assert(val(data[v * w + u]) == b);
        }
        lemma_median_of_equal(ops, val, patch, s.2, b);
    }
}

/// A patch is cut out of the frame.
#[verifier::spinoff_prover]
proof fn lemma_patch_is_cropped<T>(data: Seq<T>, w: int, h: int, x: int, y: int, grid: int)
    requires
        1 <= w <= usize::MAX,
        1 <= h <= usize::MAX,
        0 <= x < w,
        0 <= y < h,
        grid >= 2,
    ensures
        crop_plane(data, w, h, patch_bounds(x, y, w, h, grid)) == patch_of(
            data,
            w,
            patch_start(x, patch_reach(w, grid)),
            patch_start(y, patch_reach(h, grid)),
            patch_end(x, patch_reach(w, grid), w),
            patch_end(y, patch_reach(h, grid), h),
        ),
{
    lemma_patch_reach(w, grid);
    lemma_patch_reach(h, grid);
    let bounds = patch_bounds(x, y, w, h, grid);
    let (left, top) = (patch_start(x, patch_reach(w, grid)), patch_start(y, patch_reach(h, grid)));
    let right = patch_end(x, patch_reach(w, grid), w);
    let bottom = patch_end(y, patch_reach(h, grid), h);
    assert(bounds.0 == top && bounds.2 == left);
    assert(w - bounds.2 - bounds.3 == right - left + 1);
    assert(h - bounds.0 - bounds.1 == bottom - top + 1);
    assert(crop_plane(data, w, h, bounds) =~= patch_of(data, w, left, top, right, bottom));
}

/// Where a grid line lies.
proof fn lemma_grid_line(g: int, n: int, grid: int)
    requires
        0 <= g < grid,
        n >= 1,
        grid >= 2,
    ensures
        ({
            let p = grid_line(g, n, grid);
            &&& 0 <= p < n
            &&& p * (grid - 1) <= g * (n - 1) < (p + 1) * (grid - 1)
        }),
{
    let (a, d) = (g * (n - 1), grid - 1);
    vstd::arithmetic::div_mod::lemma_fundamental_div_mod(a, d);
    vstd::arithmetic::div_mod::lemma_mod_bound(a, d);
    let p = a / d;
    assert(p * d <= a < (p + 1) * d) by (nonlinear_arith)
        requires
            a == d * p + a % d,
            0 <= a % d < d,
    ;
    assert(0 <= a <= (n - 1) * d) by (nonlinear_arith)
        requires
            a == g * (n - 1),
            0 <= g <= d,
            n >= 1,
    ;
    assert(0 <= p <= n - 1) by (nonlinear_arith)
        requires
            p * d <= a < (p + 1) * d,
            0 <= a <= (n - 1) * d,
            d >= 1,
    ;
}

/// The reach of a patch.
proof fn lemma_patch_reach(n: int, grid: int)
    requires
        n >= 1,
        grid >= 2,
    ensures
        patch_radius(n, grid) == patch_reach(n, grid),
        patch_reach(n, grid) >= 1,
{
    let d = grid * 2;
    vstd::arithmetic::div_mod::lemma_fundamental_div_mod(n, d);
    vstd::arithmetic::div_mod::lemma_mod_bound(n, d);
    let q = n / d;
    if n < d {
        assert(q < 1) by (nonlinear_arith)
            requires
                n == d * q + n % d,
                0 <= n % d,
                n < d,
                d >= 1,
        ;
    } else {
        assert(q >= 1) by (nonlinear_arith)
            requires
                n == d * q + n % d,
                n % d < d,
                n >= d,
                d >= 1,
        ;
    }
    assert(2 * grid == grid * 2);
}

// ---------------------------------------------------------------------------
// Outliers
// ---------------------------------------------------------------------------

/// The levels of samples that are kept: those closer to `m` than `limit`.
pub open spec fn near_level<T>(
    val: spec_fn(T) -> real,
    samples: Seq<Background<T>>,
    m: real,
    limit: real,
) -> Seq<Background<T>>
    decreases samples.len(),
{
    if samples.len() == 0 {
        Seq::empty()
    } else if size_of(val(samples.last().2) - m) < limit {
        near_level(val, samples.drop_last(), m, limit).push(samples.last())
    } else {
        near_level(val, samples.drop_last(), m, limit)
    }
}

/// `m` is the median of numbers.
pub open spec fn is_middle<T>(val: spec_fn(T) -> real, s: Seq<T>, m: real) -> bool {
    exists|i: int, j: int| #[trigger]
        stands_at(val, s, (s.len() - 1) / 2, i) && #[trigger] stands_at(
            val,
            s,
            s.len() as int / 2,
            j,
        ) && (2 as real) * m == val(s[i]) + val(s[j])
}

/// The magnitudes of `devs` are how far the levels of the samples are from `m`.
pub open spec fn are_distances<T>(
    val: spec_fn(T) -> real,
    samples: Seq<Background<T>>,
    m: real,
    devs: Seq<T>,
) -> bool {
    &&& devs.len() == samples.len()
    &&& forall|i: int|
        0 <= i < devs.len() ==> val(#[trigger] devs[i]) == size_of(val(samples[i].2) - m)
}

/// One round of trimming: `m` is the median level, `d` the median distance from
/// it, and 1.4826 times `d` the spread. Samples within `sigma` spreads are kept.
/// The round is the last one, and keeps every sample, where there is no spread
/// or fewer than six samples would be left.
pub open spec fn is_trimming<T>(
    val: spec_fn(T) -> real,
    sigma: real,
    before: Seq<Background<T>>,
    m: real,
    devs: Seq<T>,
    d: real,
    after: Seq<Background<T>>,
    stop: bool,
) -> bool {
    let spread = product(d, (14_826 as real) / (10_000 as real));
    let near = near_level(val, before, m, product(sigma, spread));
    &&& is_middle(val, levels(before), m)
    &&& are_distances(val, before, m, devs)
    &&& is_middle(val, devs, d)
    &&& stop == (spread < (1 as real) / (10_000_000_000 as real) || near.len() < 6)
    &&& after == if stop {
        before
    } else {
        near
    }
}

/// The mask picks the samples near the median level.
proof fn lemma_near_is_picked<T, A: Arithmetic<T>>(
    ops: &A,
    val: spec_fn(T) -> real,
    samples: Seq<Background<T>>,
    median: T,
    limit: T,
    mask: Seq<bool>,
    n: int,
)
    requires
        is_exact(ops, val),
        is_clip_mask(ops, samples, median, limit, mask),
        0 <= n <= samples.len(),
    ensures
        picked(samples.take(n), mask) == near_level(
            val,
            samples.take(n),
            val(median),
            val(limit),
        ),
    decreases n,
{
    if n > 0 {
        lemma_near_is_picked(ops, val, samples, median, limit, mask, n - 1);
        assert(samples.take(n).drop_last() =~= samples.take(n - 1));
        let v = samples[n - 1].2;
        let (f, g) = (deviation(v, median), Formula::Given(limit));
        lemma_distance(ops, val, v, median);
        assert(decides(ops, Test::Less, f, g, mask[n - 1]));
        let (x, y) = choose|x: T, y: T|
            evals(ops, f, x) && evals(ops, g, y) && #[trigger] test_answers(
                ops,
                Test::Less,
                x,
                y,
                mask[n - 1],
            );
    }
}

/// How far a level is from the median level.
proof fn lemma_distance<T, A: Arithmetic<T>>(
    ops: &A,
    val: spec_fn(T) -> real,
    v: T,
    median: T,
)
    requires
        is_exact(ops, val),
    ensures
        denotes(ops, val, deviation(v, median), size_of(val(v) - val(median))),
{
    let (f, g) = (Formula::Given(v), Formula::Given(median));
    lemma_exact_binary(ops, val, Binary::Minus, f, g, val(v), val(median));
    lemma_exact_size(ops, val, f.minus(g), val(v) - val(median));
}

/// A round of sigma-clipping trims the samples by the clip that the parameters
/// give.
pub proof fn lemma_clipping_trims<T, A: Arithmetic<T>>(
    ops: &A,
    val: spec_fn(T) -> real,
    sigma_clip: T,
    before: Seq<Background<T>>,
    after: Seq<Background<T>>,
    stop: bool,
) -> (r: (real, Seq<T>, real))
    requires
        is_exact(ops, val),
        keys_follow(ops, val),
        before.len() > 0,
        is_clip_round(ops, sigma_clip, before, after, stop),
    ensures
        is_trimming(val, val(sigma_clip), before, r.0, r.1, r.2, after, stop),
{
    let (median, spread) = choose|median: T, spread: T| #[trigger]
        is_spread(ops, before, median, spread) && clips_to(
            ops,
            sigma_clip,
            before,
            median,
            spread,
            after,
            stop,
        );
    let (devs, mad) = choose|devs: Seq<T>, mad: T| #[trigger]
        are_deviations(ops, before, median, devs) && #[trigger] is_median(ops, devs, mad) && evals(
            ops,
            Formula::Given(mad).times(Formula::Ratio(14826, 10000)),
            spread,
        );
    lemma_median_is_middle(ops, val, levels(before), median);
    lemma_median_is_middle(ops, val, devs, mad);
    assert forall|i: int| 0 <= i < devs.len() implies val(#[trigger] devs[i]) == size_of(
        val(before[i].2) - val(median),
    ) by {
        lemma_distance(ops, val, before[i].2, median);
        assert(evals(ops, deviation(before[i].2, median), devs[i]));
    }
    let q = (14826u64 as int as real) / (10000u64 as int as real);
    lemma_exact_ratio(ops, val, 14826, 10000);
    lemma_exact_product(ops, val, Formula::Given(mad), Formula::Ratio(14826, 10000), val(mad), q);
    let width = product(val(mad), q);
    assert(val(spread) == width);
    lemma_exact_ratio(ops, val, 1, 10_000_000_000);
    let flat = choose|flat: bool| #[trigger]
        decides(ops, Test::Less, Formula::Given(spread), Formula::Ratio(1, 10_000_000_000), flat)
            && if flat {
            stop && after == before
        } else {
            exists|limit: T, mask: Seq<bool>|
                evals(ops, Formula::Given(sigma_clip).times(Formula::Given(spread)), limit)
                    && #[trigger] is_clip_mask(ops, before, median, limit, mask) && if picked(
                    before,
                    mask,
                ).len() < 6 {
                    stop && after == before
                } else {
                    !stop && after == picked(before, mask)
                }
        };
    let (x, y) = choose|x: T, y: T|
        evals(ops, Formula::Given(spread), x) && evals(
            ops,
            Formula::Ratio(1, 10_000_000_000),
            y,
        ) && #[trigger] test_answers(ops, Test::Less, x, y, flat);
    assert(flat == (width < (1 as real) / (10_000_000_000 as real)));
    if !flat {
        let (limit, mask) = choose|limit: T, mask: Seq<bool>|
            evals(ops, Formula::Given(sigma_clip).times(Formula::Given(spread)), limit)
                && #[trigger] is_clip_mask(ops, before, median, limit, mask) && if picked(
                before,
                mask,
            ).len() < 6 {
                stop && after == before
            } else {
                !stop && after == picked(before, mask)
            };
        lemma_exact_product(
            ops,
            val,
            Formula::Given(sigma_clip),
            Formula::Given(spread),
            val(sigma_clip),
            width,
        );
        lemma_near_is_picked(ops, val, before, median, limit, mask, before.len() as int);
        assert(before.take(before.len() as int) =~= before);
    }
    (val(median), devs, val(mad))
}

/// The background samples that the surface is fitted to are what at most three
/// rounds of sigma-clipping, by the clip that the parameters give, leave of the
/// grid.
pub proof fn lemma_three_rounds<T, A: Arithmetic<T>>(
    ops: &A,
    params: GradientParams<T>,
    data: Seq<T>,
    w: int,
    h: int,
    samples: Seq<Background<T>>,
    kept: Seq<Background<T>>,
    coeffs: Option<Seq<T>>,
    out: Seq<T>,
) -> (r: (Seq<Background<T>>, bool, Seq<Background<T>>, bool, Seq<Background<T>>, bool))
    requires
        is_gradient_free_by(ops, params, data, w, h, samples, kept, coeffs, out),
    ensures
        is_clip_round(ops, params.sigma_clip, samples, r.0, r.1),
        r.1 ==> kept == r.0,
        !r.1 ==> is_clip_round(ops, params.sigma_clip, r.0, r.2, r.3),
        !r.1 && r.3 ==> kept == r.2,
        !r.1 && !r.3 ==> is_clip_round(ops, params.sigma_clip, r.2, r.4, r.5) && kept == r.4,
{
    let sigma = params.sigma_clip;
    reveal_with_fuel(is_clipped, 4);
    let (a, p) = choose|next: Seq<Background<T>>, stop: bool| #[trigger]
        is_clip_round(ops, sigma, samples, next, stop) && if stop {
            kept == next
        } else {
            is_clipped(ops, sigma, next, 2, kept)
        };
    let (b, q) = choose|next: Seq<Background<T>>, stop: bool| #[trigger]
        is_clip_round(ops, sigma, a, next, stop) && if stop {
            kept == next
        } else {
            is_clipped(ops, sigma, next, 1, kept)
        };
    let (c, s) = choose|next: Seq<Background<T>>, stop: bool| #[trigger]
        is_clip_round(ops, sigma, b, next, stop) && if stop {
            kept == next
        } else {
            is_clipped(ops, sigma, next, 0, kept)
        };
    (a, p, b, q, c, s)
}

} // verus!
