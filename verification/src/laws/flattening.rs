//! Laws of least squares and background gradient removal.

use super::answers::{
    is_deterministic, lemma_one_answering, lemma_one_decision, lemma_one_index,
    lemma_one_sequence, lemma_one_value,
};
use super::statistics::{lemma_one_median, lemma_one_percentile_pair};
use crate::arith::{Arithmetic, Formula, Test, Unary, decides, evals, indexes, whole};
use crate::frame::Raster;
use crate::gradient::{
    Background, GradientParams, are_columns, are_coordinates, are_deviations, are_grid_samples,
    bilinear, clips_to, deviation, eval_size, grid_line, grid_lines, grid_position,
    is_background_level, is_clip_mask, is_clip_round, is_clipped, is_column, is_fit, is_flattened,
    is_flattened_at, is_gradient_free, is_gradient_free_by, is_gradient_free_image,
    is_grid_sample, is_level, is_model, is_shifted, is_spread, last_pixel, levels, normalized,
    patch_bounds, poly_exponents, subtracts, surface, term,
};
use crate::linear::{
    are_normal_equations, dot_of, entry_size, exchanged, is_back_substituted, is_eliminated,
    is_eliminated_at, is_least_squares, is_normal_row, is_pivot, is_reduced_row, is_solution,
    is_triangular, lemma_remainder, remainder,
};
use crate::plane::{crop_plane, picked};
use crate::stats::{are_percentiles, is_median, within};
use vstd::prelude::*;

verus! {

// ---------------------------------------------------------------------------
// Least squares
// ---------------------------------------------------------------------------

/// A column has one pivot.
proof fn lemma_one_pivot<T, A: Arithmetic<T>>(
    ops: &A,
    m: Seq<Seq<T>>,
    col: int,
    end: int,
    a: int,
    b: int,
)
    requires
        is_deterministic(ops),
        is_pivot(ops, m, col, end, a),
        is_pivot(ops, m, col, end, b),
    ensures
        a == b,
    decreases end - col,
{
    if end > col + 1 {
        let (p, r) = choose|earlier: int, larger: bool| #[trigger]
            decides(
                ops,
                Test::Less,
                entry_size(m, earlier, col),
                entry_size(m, end - 1, col),
                larger,
            ) && is_pivot(ops, m, col, end - 1, earlier) && a == if larger {
                end - 1
            } else {
                earlier
            };
        let (q, s) = choose|earlier: int, larger: bool| #[trigger]
            decides(
                ops,
                Test::Less,
                entry_size(m, earlier, col),
                entry_size(m, end - 1, col),
                larger,
            ) && is_pivot(ops, m, col, end - 1, earlier) && b == if larger {
                end - 1
            } else {
                earlier
            };
        lemma_one_pivot(ops, m, col, end - 1, p, q);
        lemma_one_decision(
            ops,
            Test::Less,
            entry_size(m, p, col),
            entry_size(m, end - 1, col),
            r,
            s,
        );
    }
}

/// A pivot is one of the rows that the scan looks at.
pub proof fn lemma_pivot_in_range<T, A: Arithmetic<T>>(
    ops: &A,
    m: Seq<Seq<T>>,
    col: int,
    end: int,
    best: int,
)
    requires
        is_pivot(ops, m, col, end, best),
        col < end,
    ensures
        col <= best < end,
    decreases end - col,
{
    if end > col + 1 {
        let (p, r) = choose|earlier: int, larger: bool| #[trigger]
            decides(
                ops,
                Test::Less,
                entry_size(m, earlier, col),
                entry_size(m, end - 1, col),
                larger,
            ) && is_pivot(ops, m, col, end - 1, earlier) && best == if larger {
                end - 1
            } else {
                earlier
            };
        lemma_pivot_in_range(ops, m, col, end - 1, p);
    }
}

/// Equations have one elimination of a column.
proof fn lemma_one_elimination<T, A: Arithmetic<T>>(
    ops: &A,
    m: Seq<Seq<T>>,
    v: Seq<T>,
    col: int,
    a: Seq<Seq<T>>,
    x: Seq<T>,
    b: Seq<Seq<T>>,
    y: Seq<T>,
)
    requires
        is_deterministic(ops),
        v.len() == m.len(),
        0 <= col,
        is_eliminated(ops, m, v, col, a, x),
        is_eliminated(ops, m, v, col, b, y),
    ensures
        a == b,
        x == y,
{
    assert forall|row: int| 0 <= row < m.len() implies #[trigger] a[row] == b[row] && x[row]
        == y[row] by {
        assert(is_eliminated_at(ops, m, v, col, row, a[row], x[row]));
        assert(is_eliminated_at(ops, m, v, col, row, b[row], y[row]));
        if row > col {
            let quotient = Formula::Given(m[row][col]).over(Formula::Given(m[col][col]));
            let f = choose|factor: T|
                evals(ops, quotient, factor) && #[trigger] is_reduced_row(
                    ops,
                    m[row],
                    m[col],
                    col,
                    factor,
                    a[row],
                ) && evals(
                    ops,
                    Formula::Given(v[row]).minus(
                        Formula::Given(factor).times(Formula::Given(v[col])),
                    ),
                    x[row],
                );
            let g = choose|factor: T|
                evals(ops, quotient, factor) && #[trigger] is_reduced_row(
                    ops,
                    m[row],
                    m[col],
                    col,
                    factor,
                    b[row],
                ) && evals(
                    ops,
                    Formula::Given(v[row]).minus(
                        Formula::Given(factor).times(Formula::Given(v[col])),
                    ),
                    y[row],
                );
            lemma_one_value(ops, quotient, f, g);
            lemma_one_value(
                ops,
                Formula::Given(v[row]).minus(Formula::Given(f).times(Formula::Given(v[col]))),
                x[row],
                y[row],
            );
            lemma_one_sequence(
                ops,
                |k: int|
                    if k < col {
                        Formula::Given(m[row][k])
                    } else {
                        Formula::Given(m[row][k]).minus(
                            Formula::Given(f).times(Formula::Given(m[col][k])),
                        )
                    },
                a[row],
                b[row],
            );
        }
    }
    assert(a =~= b);
    assert forall|row: int| 0 <= row < m.len() implies #[trigger] x[row] == y[row] by {
        assert(a[row] == b[row]);
    }
    assert(x =~= y);
}

/// Equations have one triangular form.
proof fn lemma_one_triangle<T, A: Arithmetic<T>>(
    ops: &A,
    m: Seq<Seq<T>>,
    v: Seq<T>,
    col: int,
    a: Option<(Seq<Seq<T>>, Seq<T>)>,
    b: Option<(Seq<Seq<T>>, Seq<T>)>,
)
    requires
        is_deterministic(ops),
        v.len() == m.len(),
        0 <= col,
        is_triangular(ops, m, v, col, a),
        is_triangular(ops, m, v, col, b),
    ensures
        a == b,
    decreases m.len() - col,
{
    if col < m.len() {
        let (p, r) = choose|best: int, tiny: bool|
            is_pivot(ops, m, col, m.len() as int, best) && #[trigger] decides(
                ops,
                Test::Less,
                entry_size(m, best, col),
                Formula::Ratio(1, 1_000_000_000_000),
                tiny,
            ) && if tiny {
                a is None
            } else {
                exists|a2: Seq<Seq<T>>, b2: Seq<T>| #[trigger]
                    is_eliminated(
                        ops,
                        exchanged(m, col, best),
                        exchanged(v, col, best),
                        col,
                        a2,
                        b2,
                    ) && a2.len() == m.len() && is_triangular(ops, a2, b2, col + 1, a)
            };
        let (q, s) = choose|best: int, tiny: bool|
            is_pivot(ops, m, col, m.len() as int, best) && #[trigger] decides(
                ops,
                Test::Less,
                entry_size(m, best, col),
                Formula::Ratio(1, 1_000_000_000_000),
                tiny,
            ) && if tiny {
                b is None
            } else {
                exists|a2: Seq<Seq<T>>, b2: Seq<T>| #[trigger]
                    is_eliminated(
                        ops,
                        exchanged(m, col, best),
                        exchanged(v, col, best),
                        col,
                        a2,
                        b2,
                    ) && a2.len() == m.len() && is_triangular(ops, a2, b2, col + 1, b)
            };
        lemma_one_pivot(ops, m, col, m.len() as int, p, q);
        lemma_one_decision(
            ops,
            Test::Less,
            entry_size(m, p, col),
            Formula::Ratio(1, 1_000_000_000_000),
            r,
            s,
        );
        lemma_pivot_in_range(ops, m, col, m.len() as int, p);
        if !r {
            let m2 = exchanged(m, col, p);
            let v2 = exchanged(v, col, p);
            let (e, x) = choose|a2: Seq<Seq<T>>, b2: Seq<T>| #[trigger]
                is_eliminated(ops, m2, v2, col, a2, b2) && a2.len() == m.len() && is_triangular(
                    ops,
                    a2,
                    b2,
                    col + 1,
                    a,
                );
            let (f, y) = choose|a2: Seq<Seq<T>>, b2: Seq<T>| #[trigger]
                is_eliminated(ops, m2, v2, col, a2, b2) && a2.len() == m.len() && is_triangular(
                    ops,
                    a2,
                    b2,
                    col + 1,
                    b,
                );
            lemma_one_elimination(ops, m2, v2, col, e, x, f, y);
            lemma_one_triangle(ops, e, x, col + 1, a, b);
        }
    }
}

/// Triangular equations have one solution, from unknown `n - k` on.
proof fn lemma_one_back_substitution<T, A: Arithmetic<T>>(
    ops: &A,
    m: Seq<Seq<T>>,
    v: Seq<T>,
    x: Seq<T>,
    y: Seq<T>,
    k: int,
)
    requires
        is_deterministic(ops),
        is_back_substituted(ops, m, v, x),
        is_back_substituted(ops, m, v, y),
        0 <= k <= x.len(),
    ensures
        forall|c: int| x.len() - k <= c < x.len() ==> #[trigger] x[c] == y[c],
    decreases k,
{
    if k > 0 {
        lemma_one_back_substitution(ops, m, v, x, y, k - 1);
        let n = x.len() as int;
        let c = n - k;
        lemma_remainder(m[c], v[c], x, y, c + 1, n);
        assert(y.len() == n);
        lemma_one_value(
            ops,
            remainder(m[c], v[c], x, c + 1, n).over(Formula::Given(m[c][c])),
            x[c],
            y[c],
        );
    }
}

/// Equations have one solution.
pub proof fn lemma_one_solution<T, A: Arithmetic<T>>(
    ops: &A,
    m: Seq<Seq<T>>,
    v: Seq<T>,
    a: Option<Seq<T>>,
    b: Option<Seq<T>>,
)
    requires
        is_deterministic(ops),
        v.len() == m.len(),
        is_solution(ops, m, v, a),
        is_solution(ops, m, v, b),
    ensures
        a == b,
{
    let s = choose|upper: Option<(Seq<Seq<T>>, Seq<T>)>| #[trigger]
        is_triangular(ops, m, v, 0, upper) && match upper {
            Some(u) => a is Some && is_back_substituted(ops, u.0, u.1, a->0),
            None => a is None,
        };
    let t = choose|upper: Option<(Seq<Seq<T>>, Seq<T>)>| #[trigger]
        is_triangular(ops, m, v, 0, upper) && match upper {
            Some(u) => b is Some && is_back_substituted(ops, u.0, u.1, b->0),
            None => b is None,
        };
    lemma_one_triangle(ops, m, v, 0, s, t);
    if s is Some {
        let x = a->0;
        let y = b->0;
        lemma_one_back_substitution(ops, (s->0).0, (s->0).1, x, y, x.len() as int);
        assert(x =~= y);
    }
}

/// Columns and values have one least-squares solution.
pub proof fn lemma_one_least_squares<T, A: Arithmetic<T>>(
    ops: &A,
    columns: Seq<Seq<T>>,
    values: Seq<T>,
    a: Option<Seq<T>>,
    b: Option<Seq<T>>,
)
    requires
        is_deterministic(ops),
        is_least_squares(ops, columns, values, a),
        is_least_squares(ops, columns, values, b),
    ensures
        a == b,
{
    let (m, v) = choose|a2: Seq<Seq<T>>, b2: Seq<T>| #[trigger]
        are_normal_equations(ops, columns, values, a2, b2) && is_solution(ops, a2, b2, a);
    let (n, w) = choose|a2: Seq<Seq<T>>, b2: Seq<T>| #[trigger]
        are_normal_equations(ops, columns, values, a2, b2) && is_solution(ops, a2, b2, b);
    assert forall|i: int| 0 <= i < m.len() implies #[trigger] m[i] == n[i] by {
        assert(is_normal_row(ops, columns, columns[i], m[i]));
        assert(is_normal_row(ops, columns, columns[i], n[i]));
        lemma_one_sequence(
            ops,
            |j: int| dot_of(columns[i], columns[j], columns[i].len() as int),
            m[i],
            n[i],
        );
    }
    assert(m =~= n);
    lemma_one_sequence(ops, |i: int| dot_of(columns[i], values, values.len() as int), v, w);
    lemma_one_solution(ops, m, v, a, b);
}

// ---------------------------------------------------------------------------
// Background samples
// ---------------------------------------------------------------------------

/// A channel has one grid of background samples.
proof fn lemma_one_grid<T, A: Arithmetic<T>>(
    ops: &A,
    data: Seq<T>,
    w: int,
    h: int,
    grid: int,
    a: Seq<Background<T>>,
    b: Seq<Background<T>>,
)
    requires
        is_deterministic(ops),
        are_grid_samples(ops, data, w, h, grid, a),
        are_grid_samples(ops, data, w, h, grid, b),
    ensures
        a == b,
{
    assert forall|k: int| 0 <= k < a.len() implies #[trigger] a[k] == b[k] by {
        assert(is_grid_sample(ops, data, w, h, grid, k, a[k]));
        assert(is_grid_sample(ops, data, w, h, grid, k, b[k]));
        let y = grid_line(k / grid, h, grid);
        let x = grid_line(k % grid, w, grid);
        lemma_one_median(
            ops,
            crop_plane(data, w, h, patch_bounds(x, y, w, h, grid)),
            a[k].2,
            b[k].2,
        );
    }
    assert(a =~= b);
}

/// Samples have one median level and one spread.
proof fn lemma_one_spread<T, A: Arithmetic<T>>(
    ops: &A,
    samples: Seq<Background<T>>,
    m: T,
    s: T,
    n: T,
    t: T,
)
    requires
        is_deterministic(ops),
        is_spread(ops, samples, m, s),
        is_spread(ops, samples, n, t),
    ensures
        m == n,
        s == t,
{
    lemma_one_median(ops, levels(samples), m, n);
    let (d, p) = choose|devs: Seq<T>, mad: T| #[trigger]
        are_deviations(ops, samples, m, devs) && #[trigger] is_median(ops, devs, mad) && evals(
            ops,
            Formula::Given(mad).times(Formula::Ratio(14826, 10000)),
            s,
        );
    let (e, q) = choose|devs: Seq<T>, mad: T| #[trigger]
        are_deviations(ops, samples, n, devs) && #[trigger] is_median(ops, devs, mad) && evals(
            ops,
            Formula::Given(mad).times(Formula::Ratio(14826, 10000)),
            t,
        );
    lemma_one_sequence(ops, |i: int| deviation(samples[i].2, m), d, e);
    lemma_one_median(ops, d, p, q);
    lemma_one_value(ops, Formula::Given(p).times(Formula::Ratio(14826, 10000)), s, t);
}

/// A round of sigma-clipping has one outcome.
proof fn lemma_one_clip_round<T, A: Arithmetic<T>>(
    ops: &A,
    sigma_clip: T,
    before: Seq<Background<T>>,
    a: Seq<Background<T>>,
    r: bool,
    b: Seq<Background<T>>,
    s: bool,
)
    requires
        is_deterministic(ops),
        is_clip_round(ops, sigma_clip, before, a, r),
        is_clip_round(ops, sigma_clip, before, b, s),
    ensures
        a == b,
        r == s,
{
    let (m, x) = choose|median: T, spread: T| #[trigger]
        is_spread(ops, before, median, spread) && clips_to(
            ops,
            sigma_clip,
            before,
            median,
            spread,
            a,
            r,
        );
    let (n, y) = choose|median: T, spread: T| #[trigger]
        is_spread(ops, before, median, spread) && clips_to(
            ops,
            sigma_clip,
            before,
            median,
            spread,
            b,
            s,
        );
    lemma_one_spread(ops, before, m, x, n, y);
    let tiny = Formula::Ratio(1, 10_000_000_000);
    let product = Formula::Given(sigma_clip).times(Formula::Given(x));
    let p = choose|flat: bool| #[trigger]
        decides(ops, Test::Less, Formula::Given(x), tiny, flat) && if flat {
            r && a == before
        } else {
            exists|limit: T, mask: Seq<bool>|
                evals(ops, product, limit) && #[trigger] is_clip_mask(ops, before, m, limit, mask)
                    && if picked(before, mask).len() < 6 {
                    r && a == before
                } else {
                    !r && a == picked(before, mask)
                }
        };
    let q = choose|flat: bool| #[trigger]
        decides(ops, Test::Less, Formula::Given(x), tiny, flat) && if flat {
            s && b == before
        } else {
            exists|limit: T, mask: Seq<bool>|
                evals(ops, product, limit) && #[trigger] is_clip_mask(ops, before, m, limit, mask)
                    && if picked(before, mask).len() < 6 {
                    s && b == before
                } else {
                    !s && b == picked(before, mask)
                }
        };
    lemma_one_decision(ops, Test::Less, Formula::Given(x), tiny, p, q);
    if !p {
        let (l, f) = choose|limit: T, mask: Seq<bool>|
            evals(ops, product, limit) && #[trigger] is_clip_mask(ops, before, m, limit, mask)
                && if picked(before, mask).len() < 6 {
                r && a == before
            } else {
                !r && a == picked(before, mask)
            };
        let (k, g) = choose|limit: T, mask: Seq<bool>|
            evals(ops, product, limit) && #[trigger] is_clip_mask(ops, before, m, limit, mask)
                && if picked(before, mask).len() < 6 {
                s && b == before
            } else {
                !s && b == picked(before, mask)
            };
        lemma_one_value(ops, product, l, k);
        lemma_one_answering(
            ops,
            Test::Less,
            |i: int| deviation(before[i].2, m),
            |i: int| Formula::Given(l),
            f,
            g,
        );
    }
}

/// Sigma-clipping has one outcome.
proof fn lemma_one_clipping<T, A: Arithmetic<T>>(
    ops: &A,
    sigma_clip: T,
    before: Seq<Background<T>>,
    rounds: int,
    a: Seq<Background<T>>,
    b: Seq<Background<T>>,
)
    requires
        is_deterministic(ops),
        is_clipped(ops, sigma_clip, before, rounds, a),
        is_clipped(ops, sigma_clip, before, rounds, b),
    ensures
        a == b,
    decreases rounds,
{
    if rounds > 0 {
        let (x, r) = choose|next: Seq<Background<T>>, stop: bool| #[trigger]
            is_clip_round(ops, sigma_clip, before, next, stop) && if stop {
                a == next
            } else {
                is_clipped(ops, sigma_clip, next, rounds - 1, a)
            };
        let (y, s) = choose|next: Seq<Background<T>>, stop: bool| #[trigger]
            is_clip_round(ops, sigma_clip, before, next, stop) && if stop {
                b == next
            } else {
                is_clipped(ops, sigma_clip, next, rounds - 1, b)
            };
        lemma_one_clip_round(ops, sigma_clip, before, x, r, y, s);
        if !r {
            lemma_one_clipping(ops, sigma_clip, x, rounds - 1, a, b);
        }
    }
}

/// Samples have one fitted surface.
proof fn lemma_one_fit<T, A: Arithmetic<T>>(
    ops: &A,
    samples: Seq<Background<T>>,
    w: int,
    h: int,
    order: int,
    a: Option<Seq<T>>,
    b: Option<Seq<T>>,
)
    requires
        is_deterministic(ops),
        is_fit(ops, samples, w, h, order, a),
        is_fit(ops, samples, w, h, order, b),
    ensures
        a == b,
{
    let exps = poly_exponents(order);
    let (xs, ys, columns) = choose|xn: Seq<T>, yn: Seq<T>, columns: Seq<Seq<T>>| #[trigger]
        are_coordinates(ops, samples, w, h, xn, yn) && #[trigger] are_columns(
            ops,
            xn,
            yn,
            poly_exponents(order),
            columns,
        ) && is_least_squares(ops, columns, levels(samples), a);
    let (us, vs, others) = choose|xn: Seq<T>, yn: Seq<T>, columns: Seq<Seq<T>>| #[trigger]
        are_coordinates(ops, samples, w, h, xn, yn) && #[trigger] are_columns(
            ops,
            xn,
            yn,
            poly_exponents(order),
            columns,
        ) && is_least_squares(ops, columns, levels(samples), b);
    lemma_one_sequence(ops, |i: int| normalized(samples[i].1, last_pixel(w)), xs, us);
    lemma_one_sequence(ops, |i: int| normalized(samples[i].0, last_pixel(h)), ys, vs);
    assert forall|j: int| 0 <= j < columns.len() implies #[trigger] columns[j] == others[j] by {
        assert(is_column(ops, xs, ys, exps[j], columns[j]));
        assert(is_column(ops, xs, ys, exps[j], others[j]));
        lemma_one_sequence(ops, |i: int| term(xs[i], ys[i], exps[j]), columns[j], others[j]);
    }
    assert(columns =~= others);
    lemma_one_least_squares(ops, columns, levels(samples), a, b);
}

// ---------------------------------------------------------------------------
// Subtraction
// ---------------------------------------------------------------------------

/// A sample has one value with the surface subtracted.
proof fn lemma_one_flattened_sample<T, A: Arithmetic<T>>(
    ops: &A,
    data: Seq<T>,
    w: int,
    h: int,
    model: Seq<T>,
    size: int,
    i: int,
    u: T,
    v: T,
)
    requires
        is_deterministic(ops),
        is_flattened_at(ops, data, w, h, model, size, i, u),
        is_flattened_at(ops, data, w, h, model, size, i, v),
    ensures
        u == v,
{
    let column = grid_position(i % w, w, size);
    let row = grid_position(i / w, h, size);
    let (sx, sy, fx, fy) = choose|sx: T, sy: T, fx: usize, fy: usize|
        evals(ops, column, sx) && evals(ops, row, sy) && indexes(
            ops,
            Formula::Given(sx).apply(Unary::Floor),
            fx,
        ) && indexes(ops, Formula::Given(sy).apply(Unary::Floor), fy) && #[trigger] subtracts(
            ops,
            data[i],
            model,
            size,
            sx,
            sy,
            within(fx, size),
            within(fy, size),
            u,
        );
    let (tx, ty, gx, gy) = choose|sx: T, sy: T, fx: usize, fy: usize|
        evals(ops, column, sx) && evals(ops, row, sy) && indexes(
            ops,
            Formula::Given(sx).apply(Unary::Floor),
            fx,
        ) && indexes(ops, Formula::Given(sy).apply(Unary::Floor), fy) && #[trigger] subtracts(
            ops,
            data[i],
            model,
            size,
            sx,
            sy,
            within(fx, size),
            within(fy, size),
            v,
        );
    lemma_one_value(ops, column, sx, tx);
    lemma_one_value(ops, row, sy, ty);
    lemma_one_index(ops, Formula::Given(sx).apply(Unary::Floor), fx, gx);
    lemma_one_index(ops, Formula::Given(sy).apply(Unary::Floor), fy, gy);
    lemma_one_value(
        ops,
        Formula::Given(data[i]).minus(
            bilinear(model, size, sx, sy, within(fx, size), within(fy, size)),
        ),
        u,
        v,
    );
}

/// A plane has one plane with a surface subtracted.
proof fn lemma_one_leveling<T, A: Arithmetic<T>>(
    ops: &A,
    data: Seq<T>,
    w: int,
    h: int,
    coeffs: Seq<T>,
    order: int,
    a: Seq<T>,
    b: Seq<T>,
)
    requires
        is_deterministic(ops),
        is_level(ops, data, w, h, coeffs, order, a),
        is_level(ops, data, w, h, coeffs, order, b),
    ensures
        a == b,
{
    let exps = poly_exponents(order);
    let size = eval_size(w, h);
    let (model, flat, level) = choose|model: Seq<T>, flat: Seq<T>, level: T| #[trigger]
        is_model(ops, coeffs, poly_exponents(order), eval_size(w, h), model)
            && #[trigger] is_flattened(ops, data, w, h, model, flat) && #[trigger] is_shifted(
            ops,
            flat,
            level,
            a,
        ) && is_background_level(ops, flat, level);
    let (map, even, floor) = choose|model: Seq<T>, flat: Seq<T>, level: T| #[trigger]
        is_model(ops, coeffs, poly_exponents(order), eval_size(w, h), model)
            && #[trigger] is_flattened(ops, data, w, h, model, flat) && #[trigger] is_shifted(
            ops,
            flat,
            level,
            b,
        ) && is_background_level(ops, flat, level);
    lemma_one_sequence(
        ops,
        |i: int|
            surface(
                coeffs,
                exps,
                normalized((i % size) as usize, (size - 1) as usize),
                normalized((i / size) as usize, (size - 1) as usize),
                exps.len() as int,
            ),
        model,
        map,
    );
    assert forall|i: int| 0 <= i < flat.len() implies #[trigger] flat[i] == even[i] by {
        assert(is_flattened_at(ops, data, w, h, model, size, i, flat[i]));
        assert(is_flattened_at(ops, data, w, h, model, size, i, even[i]));
        lemma_one_flattened_sample(ops, data, w, h, model, size, i, flat[i], even[i]);
    }
    assert(flat =~= even);
    let (p, x) = choose|p: T, high: T|
        evals(ops, whole(1), p) && #[trigger] are_percentiles(ops, flat, p, p, level, high);
    let (q, y) = choose|p: T, high: T|
        evals(ops, whole(1), p) && #[trigger] are_percentiles(ops, flat, p, p, floor, high);
    lemma_one_value(ops, whole(1), p, q);
    lemma_one_percentile_pair(ops, flat, p, p, level, x, floor, y);
    lemma_one_sequence(
        ops,
        |i: int| Formula::Given(flat[i]).minus(Formula::Given(level)).unit(),
        a,
        b,
    );
}

/// A channel has one channel without its gradient.
pub proof fn lemma_one_gradient_free_channel<T, A: Arithmetic<T>>(
    ops: &A,
    params: GradientParams<T>,
    data: Seq<T>,
    w: int,
    h: int,
    a: Seq<T>,
    b: Seq<T>,
)
    requires
        is_deterministic(ops),
        is_gradient_free(ops, params, data, w, h, a),
        is_gradient_free(ops, params, data, w, h, b),
    ensures
        a == b,
{
    let (samples, kept, coeffs) = choose|
        samples: Seq<Background<T>>,
        kept: Seq<Background<T>>,
        coeffs: Option<Seq<T>>,
    | #[trigger]
        is_gradient_free_by(ops, params, data, w, h, samples, kept, coeffs, a);
    let (taken, left, factors) = choose|
        samples: Seq<Background<T>>,
        kept: Seq<Background<T>>,
        coeffs: Option<Seq<T>>,
    | #[trigger]
        is_gradient_free_by(ops, params, data, w, h, samples, kept, coeffs, b);
    lemma_one_grid(ops, data, w, h, grid_lines(params.sample_grid) as int, samples, taken);
    lemma_one_clipping(ops, params.sigma_clip, samples, 3, kept, left);
    lemma_one_fit(ops, kept, w, h, params.order as int, coeffs, factors);
    if coeffs is Some {
        lemma_one_leveling(ops, data, w, h, coeffs->0, params.order as int, a, b);
    }
}

/// Gradient removal is deterministic: an image has one image without its
/// gradient.
pub proof fn lemma_one_gradient_free_image<T, A: Arithmetic<T>>(
    ops: &A,
    params: GradientParams<T>,
    image: Raster<T>,
    a: Raster<T>,
    b: Raster<T>,
)
    requires
        is_deterministic(ops),
        is_gradient_free_image(ops, params, image, a),
        is_gradient_free_image(ops, params, image, b),
    ensures
        a == b,
{
    assert forall|c: int| 0 <= c < a.planes.len() implies #[trigger] a.planes[c]
        == b.planes[c] by {
        lemma_one_gradient_free_channel(
            ops,
            params,
            image.planes[c],
            image.width as int,
            image.height as int,
            a.planes[c],
            b.planes[c],
        );
    }
    assert(a.planes =~= b.planes);
}

/// Channels never influence each other: a channel of an image without its
/// gradient is what gradient removal gives for that channel alone.
pub proof fn lemma_gradients_are_apart<T, A: Arithmetic<T>>(
    ops: &A,
    params: GradientParams<T>,
    image: Raster<T>,
    out: Raster<T>,
    c: int,
    mono: Raster<T>,
    alone: Raster<T>,
)
    requires
        is_deterministic(ops),
        0 <= c < image.planes.len(),
        mono == (Raster {
            width: image.width,
            height: image.height,
            planes: seq![image.planes[c]],
        }),
        is_gradient_free_image(ops, params, image, out),
        is_gradient_free_image(ops, params, mono, alone),
    ensures
        out.same_shape(image),
        alone.planes == seq![out.planes[c]],
{
    assert(is_gradient_free(
        ops,
        params,
        mono.planes[0],
        image.width as int,
        image.height as int,
        alone.planes[0],
    ));
    lemma_one_gradient_free_channel(
        ops,
        params,
        image.planes[c],
        image.width as int,
        image.height as int,
        out.planes[c],
        alone.planes[0],
    );
    assert(alone.planes =~= seq![out.planes[c]]);
}

} // verus!
