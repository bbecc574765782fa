//! What elimination and least squares solve where the arithmetic is exact.

use super::exact::{
    denotes, is_exact, lemma_exact_binary, lemma_exact_product, lemma_exact_quotient,
    lemma_exact_whole,
};
use super::flattening::lemma_pivot_in_range;
use super::reals::{
    lemma_product_commutes, lemma_product_distributes, lemma_product_of_unit,
    lemma_product_regroups, lemma_square, lemma_sum_equal, lemma_sum_minus, lemma_sum_not_negative,
    lemma_sum_plus, lemma_sum_scaled, lemma_sum_swap, lemma_sum_zero, product, sum,
};
use crate::arith::{
    Arithmetic, Binary, Formula, Test, Unary, decides, evals, test_answers, unary_answers,
};
use crate::linear::{
    are_normal_equations, dot_of, entry_size, exchanged, is_back_substituted, is_eliminated,
    is_eliminated_at, is_least_squares, is_normal_row, is_pivot, is_reduced_row, is_solution,
    is_triangular, remainder,
};
use vstd::prelude::*;

verus! {

// ---------------------------------------------------------------------------
// The least misfit
// ---------------------------------------------------------------------------

/// What `m` columns with the weights `x` add up to at place `p`.
pub open spec fn fitted(
    c: spec_fn(int, int) -> real,
    x: spec_fn(int) -> real,
    m: int,
    p: int,
) -> real {
    sum(|j: int| product(x(j), c(j, p)), m)
}

/// What the fit leaves of the value at place `p`.
pub open spec fn residual(
    c: spec_fn(int, int) -> real,
    v: spec_fn(int) -> real,
    x: spec_fn(int) -> real,
    m: int,
    p: int,
) -> real {
    v(p) - fitted(c, x, m, p)
}

/// The sum of the squared residuals at `n` places.
pub open spec fn misfit(
    c: spec_fn(int, int) -> real,
    v: spec_fn(int) -> real,
    x: spec_fn(int) -> real,
    m: int,
    n: int,
) -> real {
    sum(|p: int| product(residual(c, v, x, m, p), residual(c, v, x, m, p)), n)
}

/// The product of columns `i` and `j`.
pub open spec fn crossed(c: spec_fn(int, int) -> real, i: int, j: int, n: int) -> real {
    sum(|p: int| product(c(i, p), c(j, p)), n)
}

/// The weights solve normal equation `i`.
pub open spec fn solves_normal_at(
    c: spec_fn(int, int) -> real,
    v: spec_fn(int) -> real,
    x: spec_fn(int) -> real,
    m: int,
    n: int,
    i: int,
) -> bool {
    sum(|j: int| product(x(j), crossed(c, i, j, n)), m) == sum(|p: int| product(c(i, p), v(p)), n)
}

/// The weights solve the normal equations.
pub open spec fn solves_normal(
    c: spec_fn(int, int) -> real,
    v: spec_fn(int) -> real,
    x: spec_fn(int) -> real,
    m: int,
    n: int,
) -> bool {
    forall|i: int| 0 <= i < m ==> #[trigger] solves_normal_at(c, v, x, m, n, i)
}

/// A factor times a weighted sum of columns, summed over the places, is the
/// weighted sum of the products.
proof fn lemma_weighted_products(
    c: spec_fn(int, int) -> real,
    f: spec_fn(int) -> real,
    x: spec_fn(int) -> real,
    m: int,
    n: int,
)
    ensures
        sum(|p: int| product(f(p), fitted(c, x, m, p)), n) == sum(
            |j: int| product(x(j), sum(|p: int| product(f(p), c(j, p)), n)),
            m,
        ),
{
    let g = |j: int, p: int| product(x(j), product(f(p), c(j, p)));
    let left = |p: int| product(f(p), fitted(c, x, m, p));
    let mid = |p: int| sum(|j: int| g(j, p), m);
    assert forall|p: int| 0 <= p < n implies #[trigger] left(p) == mid(p) by {
        let term = |j: int| product(x(j), c(j, p));
        lemma_sum_scaled(f(p), term, m);
        let a = |j: int| product(f(p), term(j));
        let b = |j: int| g(j, p);
        assert forall|j: int| 0 <= j < m implies #[trigger] a(j) == b(j) by {
            lemma_product_regroups(f(p), x(j), c(j, p));
        }
        lemma_sum_equal(a, b, m);
    }
    lemma_sum_equal(left, mid, n);
    lemma_sum_swap(g, m, n);
    let cols = |j: int| sum(|p: int| g(j, p), n);
    let right = |j: int| product(x(j), sum(|p: int| product(f(p), c(j, p)), n));
    assert forall|j: int| 0 <= j < m implies #[trigger] cols(j) == right(j) by {
        let inner = |p: int| product(f(p), c(j, p));
        lemma_sum_scaled(x(j), inner, n);
        lemma_sum_equal(|p: int| g(j, p), |p: int| product(x(j), inner(p)), n);
    }
    lemma_sum_equal(cols, right, m);
}

/// The residual of a solution of the normal equations is orthogonal to every
/// column.
proof fn lemma_residual_is_orthogonal(
    c: spec_fn(int, int) -> real,
    v: spec_fn(int) -> real,
    x: spec_fn(int) -> real,
    m: int,
    n: int,
    i: int,
)
    requires
        solves_normal(c, v, x, m, n),
        0 <= i < m,
    ensures
        sum(|p: int| product(residual(c, v, x, m, p), c(i, p)), n) == 0 as real,
{
    let f = |p: int| c(i, p);
    lemma_weighted_products(c, f, x, m, n);
    let values = |p: int| product(c(i, p), v(p));
    let fits = |p: int| product(f(p), fitted(c, x, m, p));
    let whole = |p: int| product(residual(c, v, x, m, p), c(i, p));
    let parts = |p: int| values(p) - fits(p);
    lemma_sum_minus(values, fits, n);
    assert forall|p: int| 0 <= p < n implies #[trigger] whole(p) == parts(p) by {
        lemma_product_commutes(residual(c, v, x, m, p), c(i, p));
        lemma_product_distributes(c(i, p), v(p), fitted(c, x, m, p));
    }
    lemma_sum_equal(whole, parts, n);
    let a = |j: int| product(x(j), sum(|p: int| product(f(p), c(j, p)), n));
    let b = |j: int| product(x(j), crossed(c, i, j, n));
    assert forall|j: int| 0 <= j < m implies #[trigger] a(j) == b(j) by {
        lemma_sum_equal(
            |p: int| product(f(p), c(j, p)),
            |p: int| product(c(i, p), c(j, p)),
            n,
        );
    }
    lemma_sum_equal(a, b, m);
    assert(solves_normal_at(c, v, x, m, n, i));
}

/// A solution of the normal equations has the least sum of squared residuals of
/// all weights.
pub proof fn lemma_normal_is_least(
    c: spec_fn(int, int) -> real,
    v: spec_fn(int) -> real,
    x: spec_fn(int) -> real,
    y: spec_fn(int) -> real,
    m: int,
    n: int,
)
    requires
        solves_normal(c, v, x, m, n),
    ensures
        misfit(c, v, x, m, n) <= misfit(c, v, y, m, n),
{
    let d = |j: int| x(j) - y(j);
    let r = |p: int| residual(c, v, x, m, p);
    let e = |p: int| fitted(c, d, m, p);
    // The other residual is this one plus what the weights differ by
    assert forall|p: int| 0 <= p < n implies #[trigger] residual(c, v, y, m, p) == r(p) + e(p) by {
        let (s, t) = (|j: int| product(x(j), c(j, p)), |j: int| product(y(j), c(j, p)));
        lemma_sum_minus(s, t, m);
        let a = |j: int| product(d(j), c(j, p));
        let b = |j: int| s(j) - t(j);
        assert forall|j: int| 0 <= j < m implies #[trigger] a(j) == b(j) by {
            lemma_product_distributes(x(j), y(j), c(j, p));
        }
        lemma_sum_equal(a, b, m);
    }
    // and orthogonal to that difference
    let re = |p: int| product(r(p), e(p));
    lemma_weighted_products(c, r, d, m, n);
    lemma_sum_equal(re, |p: int| product(r(p), fitted(c, d, m, p)), n);
    let cols = |j: int| product(d(j), sum(|p: int| product(r(p), c(j, p)), n));
    assert forall|j: int| 0 <= j < m implies #[trigger] cols(j) == 0 as real by {
        lemma_residual_is_orthogonal(c, v, x, m, n, j);
        lemma_sum_equal(
            |p: int| product(r(p), c(j, p)),
            |p: int| product(residual(c, v, x, m, p), c(j, p)),
            n,
        );
        lemma_product_of_unit(d(j));
    }
    lemma_sum_zero(cols, m);
    assert(sum(re, n) == 0 as real);
    // so its square adds up
    let rr = |p: int| product(r(p), r(p));
    let ee = |p: int| product(e(p), e(p));
    let ss = |p: int| product(residual(c, v, y, m, p), residual(c, v, y, m, p));
    let first = |p: int| rr(p) + re(p);
    let second = |p: int| re(p) + ee(p);
    let all = |p: int| first(p) + second(p);
    assert forall|p: int| 0 <= p < n implies #[trigger] ss(p) == all(p) by {
        assert(residual(c, v, y, m, p) == r(p) + e(p));
        lemma_product_distributes(r(p), e(p), r(p) + e(p));
        lemma_product_distributes(r(p), r(p), e(p));
        lemma_product_distributes(e(p), r(p), e(p));
        lemma_product_commutes(e(p), r(p));
    }
    lemma_sum_equal(ss, all, n);
    lemma_sum_plus(first, second, n);
    lemma_sum_plus(rr, re, n);
    lemma_sum_plus(re, ee, n);
    assert forall|p: int| 0 <= p < n implies #[trigger] ee(p) >= 0 as real by {
        lemma_square(e(p));
    }
    lemma_sum_not_negative(ee, n);
    lemma_sum_equal(
        rr,
        |p: int| product(residual(c, v, x, m, p), residual(c, v, x, m, p)),
        n,
    );
}

// ---------------------------------------------------------------------------
// Elimination
// ---------------------------------------------------------------------------

/// The first `n` entries of a row times the unknowns.
pub open spec fn row_value<T>(
    val: spec_fn(T) -> real,
    row: Seq<T>,
    x: Seq<T>,
    n: int,
) -> real {
    sum(|k: int| product(val(row[k]), val(x[k])), n)
}

/// `x` solves the equations: every row times the unknowns is the right side.
pub open spec fn solves<T>(
    val: spec_fn(T) -> real,
    a: Seq<Seq<T>>,
    b: Seq<T>,
    x: Seq<T>,
) -> bool {
    forall|r: int|
        0 <= r < a.len() ==> row_value(val, #[trigger] a[r], x, a.len() as int) == val(b[r])
}

/// The first `col` columns are eliminated: zeros below the diagonal, none on it.
spec fn is_stepped<T>(val: spec_fn(T) -> real, a: Seq<Seq<T>>, col: int) -> bool {
    &&& forall|r: int| 0 <= r < a.len() ==> (#[trigger] a[r]).len() == a.len()
    &&& forall|r: int, k: int|
        0 <= r < a.len() && 0 <= k < r && k < col ==> val(#[trigger] a[r][k]) == 0 as real
    &&& forall|r: int| 0 <= r < col ==> val(#[trigger] a[r][r]) != 0 as real
}

/// What a remainder stands for.
proof fn lemma_remainder_value<T, A: Arithmetic<T>>(
    ops: &A,
    val: spec_fn(T) -> real,
    row: Seq<T>,
    v: T,
    x: Seq<T>,
    from: int,
    end: int,
)
    requires
        is_exact(ops, val),
        0 <= from <= end,
    ensures
        denotes(
            ops,
            val,
            remainder(row, v, x, from, end),
            val(v) - (row_value(val, row, x, end) - row_value(val, row, x, from)),
        ),
    decreases end - from,
{
    if end > from {
        lemma_remainder_value(ops, val, row, v, x, from, end - 1);
        let (f, g) = (Formula::Given(row[end - 1]), Formula::Given(x[end - 1]));
        let (a, b) = (val(row[end - 1]), val(x[end - 1]));
        lemma_exact_product(ops, val, f, g, a, b);
        lemma_exact_binary(
            ops,
            val,
            Binary::Minus,
            remainder(row, v, x, from, end - 1),
            f.times(g),
            val(v) - (row_value(val, row, x, end - 1) - row_value(val, row, x, from)),
            product(a, b),
        );
    }
}

/// Back substitution solves triangular equations.
proof fn lemma_back_substitution_solves<T, A: Arithmetic<T>>(
    ops: &A,
    val: spec_fn(T) -> real,
    a: Seq<Seq<T>>,
    b: Seq<T>,
    x: Seq<T>,
)
    requires
        is_exact(ops, val),
        is_stepped(val, a, a.len() as int),
        is_back_substituted(ops, a, b, x),
    ensures
        solves(val, a, b, x),
{
    let n = a.len() as int;
    assert forall|c: int| 0 <= c < n implies row_value(val, #[trigger] a[c], x, n) == val(
        b[c],
    ) by {
        let rest = remainder(a[c], b[c], x, c + 1, n);
        let diagonal = a[c][c];
        assert(val(a[c][c]) != 0 as real);
        assert(evals(ops, rest.over(Formula::Given(diagonal)), x[c]));
        lemma_remainder_value(ops, val, a[c], b[c], x, c + 1, n);
        let left = val(b[c]) - (row_value(val, a[c], x, n) - row_value(val, a[c], x, c + 1));
        lemma_exact_quotient(
            ops,
            val,
            rest,
            Formula::Given(diagonal),
            left,
            val(diagonal),
            x[c],
        );
        let terms = |k: int| product(val(a[c][k]), val(x[k]));
        assert forall|k: int| 0 <= k < c implies #[trigger] terms(k) == 0 as real by {
            assert(val(a[c][k]) == 0 as real);
            lemma_product_of_unit(val(x[k]));
        }
        lemma_sum_zero(terms, c);
        assert(row_value(val, a[c], x, c) == sum(terms, c));
        assert(row_value(val, a[c], x, c + 1) == row_value(val, a[c], x, c) + product(
            val(diagonal),
            val(x[c]),
        ));
        lemma_product_commutes(val(diagonal), val(x[c]));
    }
}

/// Exchanging two equations does not change what solves them.
proof fn lemma_exchanged_solves<T>(
    val: spec_fn(T) -> real,
    a: Seq<Seq<T>>,
    b: Seq<T>,
    i: int,
    j: int,
    x: Seq<T>,
)
    requires
        0 <= i < a.len(),
        0 <= j < a.len(),
        a.len() == b.len(),
        solves(val, exchanged(a, i, j), exchanged(b, i, j), x),
    ensures
        solves(val, a, b, x),
{
    let (c, d) = (exchanged(a, i, j), exchanged(b, i, j));
    assert forall|r: int| 0 <= r < a.len() implies row_value(
        val,
        #[trigger] a[r],
        x,
        a.len() as int,
    ) == val(b[r]) by {
        let s = if r == i {
            j
        } else if r == j {
            i
        } else {
            r
        };
        assert(c[s] == a[r] && d[s] == b[r]);
    }
}

/// Exchanging rows from `col` on keeps the eliminated columns.
proof fn lemma_exchanged_is_stepped<T>(
    val: spec_fn(T) -> real,
    a: Seq<Seq<T>>,
    col: int,
    best: int,
)
    requires
        0 <= col <= best < a.len(),
        is_stepped(val, a, col),
    ensures
        is_stepped(val, exchanged(a, col, best), col),
{
    let c = exchanged(a, col, best);
    assert forall|r: int| 0 <= r < c.len() implies (#[trigger] c[r]).len() == c.len() by {
        let s = if r == col {
            best
        } else if r == best {
            col
        } else {
            r
        };
        assert(c[r] == a[s]);
    }
    assert forall|r: int, k: int| 0 <= r < c.len() && 0 <= k < r && k < col implies val(
        #[trigger] c[r][k],
    ) == 0 as real by {
        let s = if r == col {
            best
        } else if r == best {
            col
        } else {
            r
        };
        assert(c[r] == a[s]);
        assert(val(a[s][k]) == 0 as real);
    }
    assert forall|r: int| 0 <= r < col implies val(#[trigger] c[r][r]) != 0 as real by {
        assert(c[r] == a[r]);
        assert(val(a[r][r]) != 0 as real);
    }
}

/// An eliminated row, entry by entry: the row less a multiple of the pivot row.
proof fn lemma_reduced_row<T, A: Arithmetic<T>>(
    ops: &A,
    val: spec_fn(T) -> real,
    a: Seq<Seq<T>>,
    col: int,
    row: int,
    factor: T,
    out: Seq<T>,
    k: int,
)
    requires
        is_exact(ops, val),
        is_stepped(val, a, col),
        0 <= col < row < a.len(),
        val(a[col][col]) != 0 as real,
        evals(ops, Formula::Given(a[row][col]).over(Formula::Given(a[col][col])), factor),
        is_reduced_row(ops, a[row], a[col], col, factor, out),
        0 <= k < a.len(),
    ensures
        out.len() == a.len(),
        val(out[k]) == val(a[row][k]) - product(val(factor), val(a[col][k])),
        k <= col ==> val(out[k]) == 0 as real,
{
    let (f, g) = (Formula::Given(factor), Formula::Given(a[col][k]));
    assert(a[row].len() == a.len());
    if k < col {
        assert(out[k] == a[row][k]);
        assert(val(a[row][k]) == 0 as real);
        assert(val(a[col][k]) == 0 as real);
        lemma_product_of_unit(val(factor));
    } else {
        lemma_exact_product(ops, val, f, g, val(factor), val(a[col][k]));
        lemma_exact_binary(
            ops,
            val,
            Binary::Minus,
            Formula::Given(a[row][k]),
            f.times(g),
            val(a[row][k]),
            product(val(factor), val(a[col][k])),
        );
        assert(evals(ops, Formula::Given(a[row][k]).minus(f.times(g)), out[k]));
        if k == col {
            lemma_exact_quotient(
                ops,
                val,
                Formula::Given(a[row][col]),
                Formula::Given(a[col][col]),
                val(a[row][col]),
                val(a[col][col]),
                factor,
            );
        }
    }
}

/// Eliminating a column keeps what was eliminated before.
proof fn lemma_eliminated_is_stepped<T, A: Arithmetic<T>>(
    ops: &A,
    val: spec_fn(T) -> real,
    a: Seq<Seq<T>>,
    b: Seq<T>,
    col: int,
    a2: Seq<Seq<T>>,
    b2: Seq<T>,
)
    requires
        is_exact(ops, val),
        is_stepped(val, a, col),
        0 <= col < a.len(),
        val(a[col][col]) != 0 as real,
        is_eliminated(ops, a, b, col, a2, b2),
    ensures
        is_stepped(val, a2, col + 1),
{
    assert forall|r: int| 0 <= r < a2.len() implies (#[trigger] a2[r]).len() == a2.len() by {
        assert(is_eliminated_at(ops, a, b, col, r, a2[r], b2[r]));
        assert(a[r].len() == a.len());
    }
    assert forall|r: int, k: int| 0 <= r < a2.len() && 0 <= k < r && k < col + 1 implies val(
        #[trigger] a2[r][k],
    ) == 0 as real by {
        assert(is_eliminated_at(ops, a, b, col, r, a2[r], b2[r]));
        if r <= col {
            assert(val(a[r][k]) == 0 as real);
        } else {
            let factor = choose|factor: T|
                evals(
                    ops,
                    Formula::Given(a[r][col]).over(Formula::Given(a[col][col])),
                    factor,
                ) && #[trigger] is_reduced_row(ops, a[r], a[col], col, factor, a2[r]) && evals(
                    ops,
                    Formula::Given(b[r]).minus(
                        Formula::Given(factor).times(Formula::Given(b[col])),
                    ),
                    b2[r],
                );
            lemma_reduced_row(ops, val, a, col, r, factor, a2[r], k);
        }
    }
    assert forall|r: int| 0 <= r < col + 1 implies val(#[trigger] a2[r][r]) != 0 as real by {
        assert(is_eliminated_at(ops, a, b, col, r, a2[r], b2[r]));
        assert(val(a[r][r]) != 0 as real);
    }
}

/// What solves the eliminated equations solves the equations.
proof fn lemma_eliminated_solves<T, A: Arithmetic<T>>(
    ops: &A,
    val: spec_fn(T) -> real,
    a: Seq<Seq<T>>,
    b: Seq<T>,
    col: int,
    a2: Seq<Seq<T>>,
    b2: Seq<T>,
    x: Seq<T>,
)
    requires
        is_exact(ops, val),
        is_stepped(val, a, col),
        0 <= col < a.len(),
        val(a[col][col]) != 0 as real,
        is_eliminated(ops, a, b, col, a2, b2),
        solves(val, a2, b2, x),
    ensures
        solves(val, a, b, x),
{
    let n = a.len() as int;
    assert(is_eliminated_at(ops, a, b, col, col, a2[col], b2[col]));
    assert(row_value(val, a2[col], x, n) == val(b2[col]));
    assert forall|r: int| 0 <= r < n implies row_value(val, #[trigger] a[r], x, n) == val(
        b[r],
    ) by {
        assert(is_eliminated_at(ops, a, b, col, r, a2[r], b2[r]));
        assert(row_value(val, a2[r], x, n) == val(b2[r]));
        if r > col {
            let factor = choose|factor: T|
                evals(
                    ops,
                    Formula::Given(a[r][col]).over(Formula::Given(a[col][col])),
                    factor,
                ) && #[trigger] is_reduced_row(ops, a[r], a[col], col, factor, a2[r]) && evals(
                    ops,
                    Formula::Given(b[r]).minus(
                        Formula::Given(factor).times(Formula::Given(b[col])),
                    ),
                    b2[r],
                );
            let (f, g) = (Formula::Given(factor), Formula::Given(b[col]));
            lemma_exact_product(ops, val, f, g, val(factor), val(b[col]));
            lemma_exact_binary(
                ops,
                val,
                Binary::Minus,
                Formula::Given(b[r]),
                f.times(g),
                val(b[r]),
                product(val(factor), val(b[col])),
            );
            let own = |k: int| product(val(a[r][k]), val(x[k]));
            let pivot = |k: int| product(val(a[col][k]), val(x[k]));
            let part = |k: int| product(val(factor), pivot(k));
            let reduced = |k: int| product(val(a2[r][k]), val(x[k]));
            let rest = |k: int| own(k) - part(k);
            assert forall|k: int| 0 <= k < n implies #[trigger] reduced(k) == rest(k) by {
                lemma_reduced_row(ops, val, a, col, r, factor, a2[r], k);
                let (u, v) = (val(a[col][k]), val(x[k]));
                lemma_product_distributes(val(a[r][k]), product(val(factor), u), v);
                lemma_product_commutes(product(val(factor), u), v);
                lemma_product_regroups(v, val(factor), u);
                lemma_product_commutes(v, u);
            }
            lemma_sum_equal(reduced, rest, n);
            lemma_sum_minus(own, part, n);
            lemma_sum_scaled(val(factor), pivot, n);
            assert(sum(pivot, n) == val(b[col]));
            assert(row_value(val, a2[r], x, n) == sum(reduced, n));
            assert(row_value(val, a[r], x, n) == sum(own, n));
        }
    }
}

/// A pivot that is not too small is not zero.
proof fn lemma_pivot_is_not_zero<T, A: Arithmetic<T>>(
    ops: &A,
    val: spec_fn(T) -> real,
    v: T,
)
    requires
        is_exact(ops, val),
        decides(
            ops,
            Test::Less,
            Formula::Given(v).abs(),
            Formula::Ratio(1, 1_000_000_000_000),
            false,
        ),
    ensures
        val(v) != 0 as real,
{
    let (x, y) = choose|x: T, y: T|
        evals(ops, Formula::Given(v).abs(), x) && evals(
            ops,
            Formula::Ratio(1, 1_000_000_000_000),
            y,
        ) && #[trigger] test_answers(ops, Test::Less, x, y, false);
    let z = choose|z: T|
        evals(ops, Formula::Given(v), z) && #[trigger] unary_answers(ops, Unary::Abs, z, x);
    assert(call_ensures(A::ratio, (ops, 1u64, 1_000_000_000_000u64), y));
    lemma_tiny(val(y));
}

/// A millionth of a millionth is positive.
proof fn lemma_tiny(t: real)
    by (nonlinear_arith)
    requires
        t * (1_000_000_000_000 as real) == 1 as real,
    ensures
        t > 0 as real,
{
}

/// What solves the triangular equations solves the equations they came from.
proof fn lemma_triangular_solves<T, A: Arithmetic<T>>(
    ops: &A,
    val: spec_fn(T) -> real,
    a: Seq<Seq<T>>,
    b: Seq<T>,
    col: int,
    u: (Seq<Seq<T>>, Seq<T>),
    x: Seq<T>,
)
    requires
        is_exact(ops, val),
        0 <= col <= a.len(),
        a.len() == b.len(),
        is_stepped(val, a, col),
        is_triangular(ops, a, b, col, Some(u)),
    ensures
        u.0.len() == a.len(),
        is_stepped(val, u.0, u.0.len() as int),
        solves(val, u.0, u.1, x) ==> solves(val, a, b, x),
    decreases a.len() - col,
{
    let n = a.len() as int;
    if col < n {
        let out = Some(u);
        let (best, tiny) = choose|best: int, tiny: bool|
            is_pivot(ops, a, col, n, best) && #[trigger] decides(
                ops,
                Test::Less,
                entry_size(a, best, col),
                Formula::Ratio(1, 1_000_000_000_000),
                tiny,
            ) && if tiny {
                out is None
            } else {
                exists|a2: Seq<Seq<T>>, b2: Seq<T>| #[trigger]
                    is_eliminated(
                        ops,
                        exchanged(a, col, best),
                        exchanged(b, col, best),
                        col,
                        a2,
                        b2,
                    ) && a2.len() == a.len() && is_triangular(ops, a2, b2, col + 1, out)
            };
        lemma_pivot_in_range(ops, a, col, n, best);
        let (c, d) = (exchanged(a, col, best), exchanged(b, col, best));
        let (a2, b2) = choose|a2: Seq<Seq<T>>, b2: Seq<T>| #[trigger]
            is_eliminated(ops, c, d, col, a2, b2) && a2.len() == a.len() && is_triangular(
                ops,
                a2,
                b2,
                col + 1,
                out,
            );
        lemma_pivot_is_not_zero(ops, val, a[best][col]);
        assert(c[col] == a[best]);
        lemma_exchanged_is_stepped(val, a, col, best);
        lemma_eliminated_is_stepped(ops, val, c, d, col, a2, b2);
        lemma_triangular_solves(ops, val, a2, b2, col + 1, u, x);
        if solves(val, u.0, u.1, x) {
            lemma_eliminated_solves(ops, val, c, d, col, a2, b2, x);
            lemma_exchanged_solves(val, a, b, col, best, x);
        }
    }
}

/// A solution that elimination finds solves the equations: every row of the
/// matrix times it is the right side.
pub proof fn lemma_solution_solves<T, A: Arithmetic<T>>(
    ops: &A,
    val: spec_fn(T) -> real,
    a: Seq<Seq<T>>,
    b: Seq<T>,
    x: Seq<T>,
)
    requires
        is_exact(ops, val),
        a.len() == b.len(),
        forall|r: int| 0 <= r < a.len() ==> (#[trigger] a[r]).len() == a.len(),
        is_solution(ops, a, b, Some(x)),
    ensures
        x.len() == a.len(),
        solves(val, a, b, x),
{
    let solution = Some(x);
    let upper = choose|upper: Option<(Seq<Seq<T>>, Seq<T>)>| #[trigger]
        is_triangular(ops, a, b, 0, upper) && match upper {
            Some(u) => solution is Some && is_back_substituted(ops, u.0, u.1, solution->0),
            None => solution is None,
        };
    let u = upper->0;
    lemma_triangular_solves(ops, val, a, b, 0, u, x);
    lemma_back_substitution_solves(ops, val, u.0, u.1, x);
}

// ---------------------------------------------------------------------------
// Least squares
// ---------------------------------------------------------------------------

/// What the product of two vectors stands for.
proof fn lemma_dot_value<T, A: Arithmetic<T>>(
    ops: &A,
    val: spec_fn(T) -> real,
    x: Seq<T>,
    y: Seq<T>,
    n: int,
)
    requires
        is_exact(ops, val),
    ensures
        denotes(ops, val, dot_of(x, y, n), sum(|p: int| product(val(x[p]), val(y[p])), n)),
    decreases n,
{
    let terms = |p: int| product(val(x[p]), val(y[p]));
    if n <= 0 {
        lemma_exact_whole(ops, val, 0);
    } else {
        lemma_dot_value(ops, val, x, y, n - 1);
        let (f, g) = (Formula::Given(x[n - 1]), Formula::Given(y[n - 1]));
        let (a, b) = (val(x[n - 1]), val(y[n - 1]));
        lemma_exact_product(ops, val, f, g, a, b);
        lemma_exact_binary(
            ops,
            val,
            Binary::Plus,
            dot_of(x, y, n - 1),
            f.times(g),
            sum(terms, n - 1),
            product(a, b),
        );
    }
}

/// The entries of the columns as numbers.
pub open spec fn entries<T>(
    val: spec_fn(T) -> real,
    columns: Seq<Seq<T>>,
) -> spec_fn(int, int) -> real {
    |j: int, p: int| val(columns[j][p])
}

/// Samples as numbers.
pub open spec fn numbers_of<T>(val: spec_fn(T) -> real, s: Seq<T>) -> spec_fn(int) -> real {
    |p: int| val(s[p])
}

/// Least squares finds the least misfit: no weights have a smaller sum of
/// squared residuals.
pub proof fn lemma_least_squares_is_least<T, A: Arithmetic<T>>(
    ops: &A,
    val: spec_fn(T) -> real,
    columns: Seq<Seq<T>>,
    values: Seq<T>,
    x: Seq<T>,
    y: spec_fn(int) -> real,
)
    requires
        is_exact(ops, val),
        forall|j: int| 0 <= j < columns.len() ==> (#[trigger] columns[j]).len() == values.len(),
        is_least_squares(ops, columns, values, Some(x)),
    ensures
        x.len() == columns.len(),
        misfit(
            entries(val, columns),
            numbers_of(val, values),
            numbers_of(val, x),
            columns.len() as int,
            values.len() as int,
        ) <= misfit(
            entries(val, columns),
            numbers_of(val, values),
            y,
            columns.len() as int,
            values.len() as int,
        ),
{
    let m = columns.len() as int;
    let n = values.len() as int;
    let (a, b) = choose|a: Seq<Seq<T>>, b: Seq<T>| #[trigger]
        are_normal_equations(ops, columns, values, a, b) && is_solution(ops, a, b, Some(x));
    assert forall|r: int| 0 <= r < a.len() implies (#[trigger] a[r]).len() == a.len() by {
        assert(is_normal_row(ops, columns, columns[r], a[r]));
    }
    lemma_solution_solves(ops, val, a, b, x);
    let (c, v, w) = (entries(val, columns), numbers_of(val, values), numbers_of(val, x));
    assert forall|i: int| 0 <= i < m implies #[trigger] solves_normal_at(c, v, w, m, n, i) by {
        assert(is_normal_row(ops, columns, columns[i], a[i]));
        assert(row_value(val, a[i], x, m) == val(b[i]));
        lemma_dot_value(ops, val, columns[i], values, n);
        assert(evals(ops, dot_of(columns[i], values, n), b[i]));
        lemma_sum_equal(
            |p: int| product(val(columns[i][p]), val(values[p])),
            |p: int| product(c(i, p), v(p)),
            n,
        );
        let left = |k: int| product(val(a[i][k]), val(x[k]));
        let right = |j: int| product(w(j), crossed(c, i, j, n));
        assert forall|j: int| 0 <= j < m implies #[trigger] left(j) == right(j) by {
            lemma_dot_value(ops, val, columns[i], columns[j], n);
            assert(columns[i].len() == n);
            assert(evals(ops, dot_of(columns[i], columns[j], n), a[i][j]));
            lemma_sum_equal(
                |p: int| product(val(columns[i][p]), val(columns[j][p])),
                |p: int| product(c(i, p), c(j, p)),
                n,
            );
            lemma_product_commutes(val(a[i][j]), val(x[j]));
        }
        lemma_sum_equal(left, right, m);
        assert(row_value(val, a[i], x, m) == sum(left, m));
    }
    lemma_normal_is_least(c, v, w, y, m, n);
}

} // verus!
