//! Linear least squares by normal equations.

use crate::arith::{
    Arithmetic, Formula, Sample, Test, Traced, Unary, decides, evals, whole,
};
use crate::frame::views;
use crate::plane::copied;
use vstd::prelude::*;

verus! {

/// The first `n` products of two vectors, added up from zero.
pub open spec fn dot_of<T>(x: Seq<T>, y: Seq<T>, n: int) -> Formula<T>
    decreases n,
{
    if n <= 0 {
        whole(0)
    } else {
        dot_of(x, y, n - 1).plus(Formula::Given(x[n - 1]).times(Formula::Given(y[n - 1])))
    }
}

/// `a` and `b` are the normal equations of the columns: `a` holds the products
/// of every two columns, `b` those of each column with the values.
pub open spec fn are_normal_equations<T, A: Arithmetic<T>>(
    ops: &A,
    columns: Seq<Seq<T>>,
    values: Seq<T>,
    a: Seq<Seq<T>>,
    b: Seq<T>,
) -> bool {
    &&& a.len() == columns.len()
    &&& b.len() == columns.len()
    &&& forall|i: int|
        0 <= i < a.len() ==> is_normal_row(ops, columns, columns[i], #[trigger] a[i])
    &&& forall|i: int|
        0 <= i < b.len() ==> evals(
            ops,
            dot_of(columns[i], values, values.len() as int),
            #[trigger] b[i],
        )
}

/// The products of one column with every column.
pub open spec fn is_normal_row<T, A: Arithmetic<T>>(
    ops: &A,
    columns: Seq<Seq<T>>,
    column: Seq<T>,
    row: Seq<T>,
) -> bool {
    &&& row.len() == columns.len()
    &&& forall|j: int|
        0 <= j < row.len() ==> evals(
            ops,
            dot_of(column, columns[j], column.len() as int),
            #[trigger] row[j],
        )
}

/// The size of the entry in row `row` of column `col`.
pub open spec fn entry_size<T>(a: Seq<Seq<T>>, row: int, col: int) -> Formula<T> {
    Formula::Given(a[row][col]).abs()
}

/// `best` is the row of the largest entry in column `col`, as a scan of the
/// rows from `col` to before `end` finds it.
pub open spec fn is_pivot<T, A: Arithmetic<T>>(
    ops: &A,
    a: Seq<Seq<T>>,
    col: int,
    end: int,
    best: int,
) -> bool
    decreases end - col,
{
    if end <= col + 1 {
        best == col
    } else {
        exists|earlier: int, larger: bool| #[trigger]
            decides(
                ops,
                Test::Less,
                entry_size(a, earlier, col),
                entry_size(a, end - 1, col),
                larger,
            ) && is_pivot(ops, a, col, end - 1, earlier) && best == if larger {
                end - 1
            } else {
                earlier
            }
    }
}

/// A sequence with two items exchanged.
pub open spec fn exchanged<X>(s: Seq<X>, i: int, j: int) -> Seq<X> {
    s.update(i, s[j]).update(j, s[i])
}

/// A row less `factor` times the pivot row, from column `col` on.
pub open spec fn is_reduced_row<T, A: Arithmetic<T>>(
    ops: &A,
    row: Seq<T>,
    pivot: Seq<T>,
    col: int,
    factor: T,
    out: Seq<T>,
) -> bool {
    &&& out.len() == row.len()
    &&& forall|k: int| 0 <= k < col ==> #[trigger] out[k] == row[k]
    &&& forall|k: int|
        col <= k < out.len() ==> evals(
            ops,
            Formula::Given(row[k]).minus(Formula::Given(factor).times(Formula::Given(pivot[k]))),
            #[trigger] out[k],
        )
}

/// Row `row` after column `col` was eliminated from it.
pub open spec fn is_eliminated_at<T, A: Arithmetic<T>>(
    ops: &A,
    a: Seq<Seq<T>>,
    b: Seq<T>,
    col: int,
    row: int,
    out: Seq<T>,
    value: T,
) -> bool {
    if row <= col {
        out == a[row] && value == b[row]
    } else {
        exists|factor: T|
            evals(
                ops,
                Formula::Given(a[row][col]).over(Formula::Given(a[col][col])),
                factor,
            ) && #[trigger] is_reduced_row(ops, a[row], a[col], col, factor, out) && evals(
                ops,
                Formula::Given(b[row]).minus(
                    Formula::Given(factor).times(Formula::Given(b[col])),
                ),
                value,
            )
    }
}

/// The equations after column `col` was eliminated from the rows below it.
pub open spec fn is_eliminated<T, A: Arithmetic<T>>(
    ops: &A,
    a: Seq<Seq<T>>,
    b: Seq<T>,
    col: int,
    a2: Seq<Seq<T>>,
    b2: Seq<T>,
) -> bool {
    &&& a2.len() == a.len()
    &&& b2.len() == b.len()
    &&& forall|row: int|
        0 <= row < a.len() ==> is_eliminated_at(ops, a, b, col, row, #[trigger] a2[row], b2[row])
}

/// Gaussian elimination with partial pivoting from column `col` on: the upper
/// triangular equations that it leaves, or `None` where a pivot is too small.
pub open spec fn is_triangular<T, A: Arithmetic<T>>(
    ops: &A,
    a: Seq<Seq<T>>,
    b: Seq<T>,
    col: int,
    out: Option<(Seq<Seq<T>>, Seq<T>)>,
) -> bool
    decreases a.len() - col,
{
    if col >= a.len() {
        out == Some((a, b))
    } else {
        exists|best: int, tiny: bool|
            is_pivot(ops, a, col, a.len() as int, best) && #[trigger] decides(
                ops,
                Test::Less,
                entry_size(a, best, col),
                Formula::Ratio(1, 1_000_000_000_000),
                tiny,
            ) && if tiny {
                out is None
            } else {
                exists|a2: Seq<Seq<T>>, b2: Seq<T>| #[trigger]
                    is_eliminated(
                        ops,
                        exchanged(a, col, best),
                        exchanged(b, col, best),
                        col,
                        a2,
                        b2,
                    ) && a2.len() == a.len() && is_triangular(ops, a2, b2, col + 1, out)
            }
    }
}

/// `v` less the products of the row with the unknowns, from column `from` to
/// before `end`.
pub open spec fn remainder<T>(row: Seq<T>, v: T, x: Seq<T>, from: int, end: int) -> Formula<T>
    decreases end - from,
{
    if end <= from {
        Formula::Given(v)
    } else {
        remainder(row, v, x, from, end - 1).minus(
            Formula::Given(row[end - 1]).times(Formula::Given(x[end - 1])),
        )
    }
}

/// `x` solves upper triangular equations by back substitution.
pub open spec fn is_back_substituted<T, A: Arithmetic<T>>(
    ops: &A,
    a: Seq<Seq<T>>,
    b: Seq<T>,
    x: Seq<T>,
) -> bool {
    &&& x.len() == a.len()
    &&& forall|col: int|
        0 <= col < x.len() ==> evals(
            ops,
            remainder(a[col], b[col], x, col + 1, x.len() as int).over(
                Formula::Given(a[col][col]),
            ),
            #[trigger] x[col],
        )
}

/// `x` is the solution of the equations by Gaussian elimination, or `None`
/// where a pivot is too small.
pub open spec fn is_solution<T, A: Arithmetic<T>>(
    ops: &A,
    a: Seq<Seq<T>>,
    b: Seq<T>,
    x: Option<Seq<T>>,
) -> bool {
    exists|upper: Option<(Seq<Seq<T>>, Seq<T>)>| #[trigger]
        is_triangular(ops, a, b, 0, upper) && match upper {
            Some(u) => x is Some && is_back_substituted(ops, u.0, u.1, x->0),
            None => x is None,
        }
}

/// `x` is the least-squares solution: that of the normal equations.
pub open spec fn is_least_squares<T, A: Arithmetic<T>>(
    ops: &A,
    columns: Seq<Seq<T>>,
    values: Seq<T>,
    x: Option<Seq<T>>,
) -> bool {
    exists|a: Seq<Seq<T>>, b: Seq<T>| #[trigger]
        are_normal_equations(ops, columns, values, a, b) && is_solution(ops, a, b, x)
}

/// The product of two vectors.
fn dot<T: Sample, A: Arithmetic<T>>(ops: &A, x: &[T], y: &[T]) -> (r: T)
    requires
        x@.len() == y@.len(),
    ensures
        evals(ops, dot_of(x@, y@, x@.len() as int), r),
{
    let mut acc = Traced::whole(ops, 0);
    let mut i: usize = 0;
    while i < x.len()
        invariant
            x@.len() == y@.len(),
            i <= x@.len(),
            acc.holds(ops),
            acc.formula@ == dot_of(x@, y@, i as int),
        decreases x@.len() - i,
    {
        acc = acc.plus(ops, Traced::given(ops, x[i]).times(ops, Traced::given(ops, y[i])));
        i += 1;
    }
    acc.value
}

/// Every row is as long as there are rows.
pub open spec fn is_square<T>(a: Seq<Vec<T>>) -> bool {
    forall|i: int| 0 <= i < a.len() ==> (#[trigger] a[i])@.len() == a.len()
}

/// Least squares via normal equations.
pub fn lstsq<T: Sample, A: Arithmetic<T>>(
    ops: &A,
    columns: &Vec<Vec<T>>,
    values: &Vec<T>,
) -> (x: Option<Vec<T>>)
    requires
        forall|j: int|
            0 <= j < columns@.len() ==> (#[trigger] columns@[j])@.len() == values@.len(),
    ensures
        match x {
            Some(v) => v@.len() == columns@.len() && is_least_squares(
                ops,
                views(columns@),
                values@,
                Some(v@),
            ),
            None => is_least_squares(ops, views(columns@), values@, None),
        },
{
    let n = columns.len();
    let mut ata: Vec<Vec<T>> = Vec::with_capacity(n);
    let mut atb: Vec<T> = Vec::with_capacity(n);
    let ghost cols = views(columns@);
    let mut i: usize = 0;
    while i < n
        invariant
            n == columns@.len(),
            cols == views(columns@),
            forall|j: int|
                0 <= j < columns@.len() ==> (#[trigger] columns@[j])@.len() == values@.len(),
            i <= n,
            ata@.len() == i,
            atb@.len() == i,
            forall|k: int|
                0 <= k < i ==> is_normal_row(ops, cols, cols[k], (#[trigger] ata@[k])@),
            forall|k: int|
                0 <= k < i ==> evals(
                    ops,
                    dot_of(cols[k], values@, values@.len() as int),
                    #[trigger] atb@[k],
                ),
        decreases n - i,
    {
        let mut row: Vec<T> = Vec::with_capacity(n);
        let mut j: usize = 0;
        while j < n
            invariant
                n == columns@.len(),
                cols == views(columns@),
                forall|j: int|
                    0 <= j < columns@.len() ==> (#[trigger] columns@[j])@.len() == values@.len(),
                i < n,
                j <= n,
                row@.len() == j,
                forall|k: int|
                    0 <= k < j ==> evals(
                        ops,
                        dot_of(cols[i as int], cols[k], cols[i as int].len() as int),
                        #[trigger] row@[k],
                    ),
            decreases n - j,
        {
            row.push(dot(ops, columns[i].as_slice(), columns[j].as_slice()));
            j += 1;
        }
        ata.push(row);
        atb.push(dot(ops, columns[i].as_slice(), values.as_slice()));
        i += 1;
    }
    assert(are_normal_equations(ops, cols, values@, views(ata@), atb@));
    assert(is_square(ata@)) by {
        assert forall|k: int| 0 <= k < ata@.len() implies (#[trigger] ata@[k])@.len()
            == ata@.len() by {
            assert(is_normal_row(ops, cols, cols[k], ata@[k]@));
        }
    }
    solve_symmetric(ops, ata, atb)
}

/// The row of the largest entry in column `col`, from row `col` down.
fn find_pivot<T: Sample, A: Arithmetic<T>>(ops: &A, a: &Vec<Vec<T>>, col: usize) -> (best: usize)
    requires
        is_square(a@),
        col < a@.len(),
    ensures
        col <= best < a@.len(),
        is_pivot(ops, views(a@), col as int, a@.len() as int, best as int),
{
    let ghost m = views(a@);
    let n = a.len();
    let mut best = col;
    let mut row: usize = col + 1;
    while row < n
        invariant
            n == a@.len(),
            is_square(a@),
            m == views(a@),
            col < row <= a@.len(),
            col <= best < row,
            is_pivot(ops, m, col as int, row as int, best as int),
        decreases a@.len() - row,
    {
        let largest = Traced::given(ops, a[best][col]).apply(ops, Unary::Abs);
        let size = Traced::given(ops, a[row][col]).apply(ops, Unary::Abs);
        let larger = largest.test(ops, Test::Less, size);
        assert(decides(
            ops,
            Test::Less,
            entry_size(m, best as int, col as int),
            entry_size(m, (row + 1) - 1, col as int),
            larger,
        ));
        if larger {
            best = row;
        }
        row += 1;
    }
    best
}

/// One row with column `col` eliminated.
fn reduce_row<T: Sample, A: Arithmetic<T>>(
    ops: &A,
    row: &Vec<T>,
    pivot: &Vec<T>,
    col: usize,
    factor: T,
) -> (out: Vec<T>)
    requires
        row@.len() == pivot@.len(),
        col <= row@.len(),
    ensures
        is_reduced_row(ops, row@, pivot@, col as int, factor, out@),
{
    let mut out: Vec<T> = Vec::with_capacity(row.len());
    let mut k: usize = 0;
    while k < row.len()
        invariant
            row@.len() == pivot@.len(),
            k <= row@.len(),
            out@.len() == k,
            forall|j: int| 0 <= j < col && j < k ==> #[trigger] out@[j] == row@[j],
            forall|j: int|
                col <= j < k ==> evals(
                    ops,
                    Formula::Given(row@[j]).minus(
                        Formula::Given(factor).times(Formula::Given(pivot@[j])),
                    ),
                    #[trigger] out@[j],
                ),
        decreases row@.len() - k,
    {
        if k < col {
            out.push(row[k]);
        } else {
            let part = Traced::given(ops, factor).times(ops, Traced::given(ops, pivot[k]));
            out.push(Traced::given(ops, row[k]).minus(ops, part).value);
        }
        k += 1;
    }
    out
}

/// The equations with column `col` eliminated from the rows below it.
fn eliminate<T: Sample, A: Arithmetic<T>>(
    ops: &A,
    a: &Vec<Vec<T>>,
    b: &Vec<T>,
    col: usize,
) -> (r: (Vec<Vec<T>>, Vec<T>))
    requires
        is_square(a@),
        b@.len() == a@.len(),
        col < a@.len(),
    ensures
        is_square(r.0@),
        r.0@.len() == a@.len(),
        is_eliminated(ops, views(a@), b@, col as int, views(r.0@), r.1@),
{
    let n = a.len();
    let ghost m = views(a@);
    let mut a2: Vec<Vec<T>> = Vec::with_capacity(n);
    let mut b2: Vec<T> = Vec::with_capacity(n);
    let mut row: usize = 0;
    while row < n
        invariant
            n == a@.len(),
            m == views(a@),
            is_square(a@),
            b@.len() == n,
            col < n,
            row <= n,
            a2@.len() == row,
            b2@.len() == row,
            forall|k: int| 0 <= k < row ==> (#[trigger] a2@[k])@.len() == n,
            forall|k: int|
                0 <= k < row ==> is_eliminated_at(
                    ops,
                    m,
                    b@,
                    col as int,
                    k,
                    (#[trigger] a2@[k])@,
                    b2@[k],
                ),
        decreases n - row,
    {
        if row <= col {
            a2.push(copied(a[row].as_slice()));
            b2.push(b[row]);
        } else {
            let pivot = Traced::given(ops, a[col][col]);
            let factor = Traced::given(ops, a[row][col]).over(ops, pivot).value;
            let next = reduce_row(ops, &a[row], &a[col], col, factor);
            let part = Traced::given(ops, factor).times(ops, Traced::given(ops, b[col]));
            let value = Traced::given(ops, b[row]).minus(ops, part).value;
            assert(is_reduced_row(ops, m[row as int], m[col as int], col as int, factor, next@));
            a2.push(next);
            b2.push(value);
        }
        row += 1;
    }
    (a2, b2)
}

/// The upper triangular equations that elimination leaves.
fn triangulate<T: Sample, A: Arithmetic<T>>(
    ops: &A,
    matrix: Vec<Vec<T>>,
    values: Vec<T>,
) -> (r: Option<(Vec<Vec<T>>, Vec<T>)>)
    requires
        is_square(matrix@),
        values@.len() == matrix@.len(),
    ensures
        match r {
            Some(u) => {
                &&& is_square(u.0@)
                &&& u.0@.len() == matrix@.len()
                &&& u.1@.len() == matrix@.len()
                &&& is_triangular(ops, views(matrix@), values@, 0, Some((views(u.0@), u.1@)))
            },
            None => is_triangular(ops, views(matrix@), values@, 0, None),
        },
{
    let n = matrix.len();
    let ghost a0 = views(matrix@);
    let ghost b0 = values@;
    let mut a = matrix;
    let mut b = values;
    let mut col: usize = 0;
    while col < n
        invariant
            col <= n,
            a0 == views(matrix@),
            b0 == values@,
            is_square(a@),
            a@.len() == n,
            b@.len() == n,
            forall|out: Option<(Seq<Seq<T>>, Seq<T>)>| #[trigger]
                is_triangular(ops, views(a@), b@, col as int, out) ==> is_triangular(
                    ops,
                    a0,
                    b0,
                    0,
                    out,
                ),
        decreases n - col,
    {
        let ghost m = views(a@);
        let ghost v = b@;
        let best = find_pivot(ops, &a, col);
        let size = Traced::given(ops, a[best][col]).apply(ops, Unary::Abs);
        let least = Traced::ratio(ops, 1, 1_000_000_000_000);
        let tiny = size.test(ops, Test::Less, least);
        assert(decides(
            ops,
            Test::Less,
            entry_size(m, best as int, col as int),
            Formula::Ratio(1, 1_000_000_000_000),
            tiny,
        ));
        if tiny {
            assert(is_triangular(ops, m, v, col as int, None));
            return None;
        }
        let upper = copied(a[best].as_slice());
        let lower = copied(a[col].as_slice());
        a[col] = upper;
        a[best] = lower;
        let top = b[best];
        let bottom = b[col];
        b[col] = top;
        b[best] = bottom;
        assert(views(a@) =~= exchanged(m, col as int, best as int));
        assert(b@ =~= exchanged(v, col as int, best as int));
        let (a2, b2) = eliminate(ops, &a, &b, col);
        proof {
            assert forall|out: Option<(Seq<Seq<T>>, Seq<T>)>| #[trigger]
                is_triangular(ops, views(a2@), b2@, col + 1, out) implies is_triangular(
                ops,
                a0,
                b0,
                0,
                out,
            ) by {
                assert(is_triangular(ops, m, v, col as int, out));
            }
        }
        a = a2;
        b = b2;
        col += 1;
    }
    assert(is_triangular(ops, views(a@), b@, n as int, Some((views(a@), b@))));
    Some((a, b))
}

/// A remainder depends on the unknowns of its columns only.
pub proof fn lemma_remainder<T>(row: Seq<T>, v: T, x: Seq<T>, y: Seq<T>, from: int, end: int)
    requires
        forall|k: int| from <= k < end ==> #[trigger] x[k] == y[k],
    ensures
        remainder(row, v, x, from, end) == remainder(row, v, y, from, end),
    decreases end - from,
{
    if end > from {
        lemma_remainder(row, v, x, y, from, end - 1);
        assert(x[end - 1] == y[end - 1]);
    }
}

/// Gaussian elimination with partial pivoting.
pub fn solve_symmetric<T: Sample, A: Arithmetic<T>>(
    ops: &A,
    a: Vec<Vec<T>>,
    b: Vec<T>,
) -> (x: Option<Vec<T>>)
    requires
        is_square(a@),
        b@.len() == a@.len(),
    ensures
        match x {
            Some(v) => v@.len() == a@.len() && is_solution(ops, views(a@), b@, Some(v@)),
            None => is_solution(ops, views(a@), b@, None),
        },
{
    let n = a.len();
    let (u, v) = match triangulate(ops, a, b) {
        Some(p) => p,
        None => {
            return None;
        },
    };
    let ghost m = views(u@);
    let zero = ops.ratio(0, 1);
    let mut x: Vec<T> = crate::plane::filled(n, zero);
    let mut done: usize = 0;
    while done < n
        invariant
            n == u@.len(),
            m == views(u@),
            is_square(u@),
            v@.len() == n,
            x@.len() == n,
            done <= n,
            forall|c: int|
                n - done <= c < n ==> evals(
                    ops,
                    remainder(m[c], v@[c], x@, c + 1, n as int).over(Formula::Given(m[c][c])),
                    #[trigger] x@[c],
                ),
        decreases n - done,
    {
        let col: usize = n - done - 1;
        let mut sum = Traced::given(ops, v[col]);
        let mut k: usize = col + 1;
        while k < n
            invariant
                n == u@.len(),
                m == views(u@),
                is_square(u@),
                v@.len() == n,
                x@.len() == n,
                col < k <= n,
                sum.holds(ops),
                sum.formula@ == remainder(m[col as int], v@[col as int], x@, col + 1, k as int),
            decreases n - k,
        {
            let part = Traced::given(ops, u[col][k]).times(ops, Traced::given(ops, x[k]));
            sum = sum.minus(ops, part);
            k += 1;
        }
        let value = sum.over(ops, Traced::given(ops, u[col][col])).value;
        let ghost before = x@;
        x[col] = value;
        proof {
            assert forall|c: int| col <= c < n implies evals(
                ops,
                remainder(m[c], v@[c], x@, c + 1, n as int).over(Formula::Given(m[c][c])),
                #[trigger] x@[c],
            ) by {
                lemma_remainder(m[c], v@[c], before, x@, c + 1, n as int);
                if c > col {
                    assert(x@[c] == before[c]);
                }
            }
        }
        done += 1;
    }
    assert(is_back_substituted(ops, m, v@, x@));
    Some(x)
}

} // verus!
