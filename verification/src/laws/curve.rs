//! The midtones transfer function on real numbers.

use vstd::prelude::*;

verus! {

/// A product of positive numbers.
pub proof fn lemma_positive(a: real, b: real)
    by (nonlinear_arith)
    requires
        a > 0 as real,
        b > 0 as real,
    ensures
        a * b > 0 as real,
{
}

/// A product of numbers that are not negative.
pub proof fn lemma_not_negative(a: real, b: real)
    by (nonlinear_arith)
    requires
        a >= 0 as real,
        b >= 0 as real,
    ensures
        a * b >= 0 as real,
{
}

/// A quotient times its divisor.
pub proof fn lemma_quotient(n: real, d: real)
    by (nonlinear_arith)
    requires
        d != 0 as real,
    ensures
        (n / d) * d == n,
{
}

/// A positive factor can be left out on both sides.
#[verifier::spinoff_prover]
pub proof fn lemma_cancel(a: real, b: real, d: real)
    requires
        a * d == b * d,
        d > 0 as real,
    ensures
        a == b,
{
    if a > b {
        lemma_positive(a - b, d);
        assert((a - b) * d == a * d - b * d) by (nonlinear_arith);
    } else if b > a {
        lemma_positive(b - a, d);
        assert((b - a) * d == b * d - a * d) by (nonlinear_arith);
    }
}

/// The denominator of the curve of `m` at `x`.
pub open spec fn denominator(m: real, x: real) -> real {
    m * ((1 as real) - x) + ((1 as real) - m) * x
}

/// What the midtones transfer function of `m` makes of `x`.
pub open spec fn midtones(m: real, x: real) -> real {
    ((1 as real) - m) * x / denominator(m, x)
}

/// The midtone balances that a stretch uses: 0.0001 to 0.9999.
pub open spec fn is_balance(m: real) -> bool {
    1 as real <= 10_000 as real * m <= 9_999 as real
}

/// The denominator of the curve is at least 0.0001.
#[verifier::spinoff_prover]
pub proof fn lemma_denominator(m: real, x: real)
    requires
        is_balance(m),
        0 as real <= x <= 1 as real,
    ensures
        10_000 as real * denominator(m, x) >= 1 as real,
{
    lemma_not_negative(10_000 as real * m - 1 as real, (1 as real) - x);
    lemma_not_negative(9_999 as real - 10_000 as real * m, x);
    assert(10_000 as real * (m * ((1 as real) - x) + ((1 as real) - m) * x) == (10_000 as real * m
        - 1 as real) * ((1 as real) - x) + (9_999 as real - 10_000 as real * m) * x + 1 as real)
        by (nonlinear_arith);
}

/// The curve stays in the unit range, and times its denominator it is its
/// numerator.
#[verifier::spinoff_prover]
pub proof fn lemma_midtones(m: real, x: real)
    requires
        is_balance(m),
        0 as real <= x <= 1 as real,
    ensures
        midtones(m, x) * denominator(m, x) == ((1 as real) - m) * x,
        0 as real <= midtones(m, x) <= 1 as real,
{
    lemma_denominator(m, x);
    lemma_not_negative((1 as real) - m, x);
    lemma_not_negative(m, (1 as real) - x);
    lemma_quotient(((1 as real) - m) * x, denominator(m, x));
    lemma_share(((1 as real) - m) * x, midtones(m, x), denominator(m, x));
}

/// A share of a positive whole.
#[verifier::spinoff_prover]
pub proof fn lemma_share(n: real, y: real, d: real)
    requires
        y * d == n,
        0 as real <= n <= d,
        d > 0 as real,
    ensures
        0 as real <= y <= 1 as real,
{
    if y < 0 as real {
        lemma_positive(-y, d);
        assert((-y) * d == -(y * d)) by (nonlinear_arith);
    }
    if y > 1 as real {
        lemma_positive(y - 1 as real, d);
        assert((y - 1 as real) * d == y * d - d) by (nonlinear_arith);
    }
}

/// An equation times a number.
pub proof fn lemma_times(a: real, b: real, c: real)
    by (nonlinear_arith)
    requires
        a == b,
    ensures
        c * a == c * b,
{
}

/// Three factors in two orders.
pub proof fn lemma_regroups(a: real, b: real, c: real)
    by (nonlinear_arith)
    ensures
        a * (b * c) == c * (a * b),
        a * (b * c) == b * (a * c),
{
}

/// A part and the rest of a number.
pub proof fn lemma_rest(a: real, b: real)
    by (nonlinear_arith)
    ensures
        ((1 as real) - a) * b == b - a * b,
{
}

/// What the denominators of two curves that undo each other make.
#[verifier::spinoff_prover]
pub proof fn lemma_undone(m: real, k: real, x: real, y: real, z: real, d: real, e: real)
    requires
        y * d == k * x,
        ((1 as real) - y) * d == m * ((1 as real) - x),
        z * e == m * y,
        ((1 as real) - z) * e == k * ((1 as real) - y),
    ensures
        z * (e * d) == m * (k * x),
        ((1 as real) - z) * (e * d) == k * (m * ((1 as real) - x)),
{
    // z e d = (m y) d = m (y d) = m (k x)
    lemma_regroups(z, e, d);
    lemma_times(z * e, m * y, d);
    lemma_regroups(d, m, y);
    lemma_regroups(m, y, d);
    lemma_regroups(y, m, d);
    lemma_times(y * d, k * x, m);
    assert(d * (m * y) == m * (d * y));
    lemma_commutes(d, y);
    // and the same of the rests
    let (u, v) = ((1 as real) - z, (1 as real) - y);
    lemma_regroups(u, e, d);
    lemma_times(u * e, k * v, d);
    lemma_regroups(d, k, v);
    lemma_commutes(d, v);
    lemma_times(v * d, m * ((1 as real) - x), k);
}

/// Two factors in two orders.
pub proof fn lemma_commutes(a: real, b: real)
    by (nonlinear_arith)
    ensures
        a * b == b * a,
{
}

/// The curve of `1 - m` undoes the curve of `m`.
#[verifier::spinoff_prover]
pub proof fn lemma_midtones_undo(m: real, x: real)
    requires
        is_balance(m),
        0 as real <= x <= 1 as real,
    ensures
        midtones((1 as real) - m, midtones(m, x)) == x,
{
    let k = (1 as real) - m;
    let y = midtones(m, x);
    let z = midtones(k, y);
    let d = denominator(m, x);
    let e = denominator(k, y);
    lemma_midtones(m, x);
    lemma_midtones(k, y);
    assert((1 as real) - k == m);
    lemma_rest(y, d);
    lemma_rest(z, e);
    lemma_undone(m, k, x, y, z, d, e);
    lemma_rest(z, e * d);
    lemma_rest(x, m);
    lemma_commutes(m, (1 as real) - x);
    lemma_regroups(m, k, x);
    lemma_commutes(k, m);
    let p = k * m;
    lemma_whole_and_part(m, k, x, z, e * d);
    lemma_positive(k, m);
    lemma_cancel(z, x, p);
}

/// A part of a whole, from the part and the rest.
pub proof fn lemma_whole_and_part(m: real, k: real, x: real, z: real, w: real)
    by (nonlinear_arith)
    requires
        z * w == m * (k * x),
        ((1 as real) - z) * w == k * (m * ((1 as real) - x)),
    ensures
        w == k * m,
        z * (k * m) == x * (k * m),
{
    assert(((1 as real) - z) * w == w - z * w);
    assert(k * (m * ((1 as real) - x)) == k * m - m * (k * x));
    assert(w == k * m);
    assert(z * w == z * (k * m));
    assert(m * (k * x) == x * (k * m));
}

/// The curve keeps 0 and 1, and sends its balance to one half.
#[verifier::spinoff_prover]
pub proof fn lemma_midtones_points(m: real)
    requires
        is_balance(m),
    ensures
        midtones(m, 0 as real) == 0 as real,
        midtones(m, 1 as real) == 1 as real,
        (2 as real) * midtones(m, m) == 1 as real,
{
    let k = (1 as real) - m;
    lemma_midtones(m, 0 as real);
    lemma_midtones(m, 1 as real);
    lemma_midtones(m, m);
    lemma_denominator(m, 0 as real);
    lemma_denominator(m, 1 as real);
    lemma_denominator(m, m);
    let f = denominator(m, 0 as real);
    let g = denominator(m, 1 as real);
    let h = denominator(m, m);
    let c = midtones(m, m);
    assert(k * (0 as real) == 0 as real) by (nonlinear_arith);
    assert((0 as real) * f == 0 as real) by (nonlinear_arith);
    lemma_cancel(midtones(m, 0 as real), 0 as real, f);
    assert(m * ((1 as real) - 1 as real) == 0 as real) by (nonlinear_arith);
    assert((1 as real) * g == g) by (nonlinear_arith);
    lemma_cancel(midtones(m, 1 as real), 1 as real, g);
    assert(m * k == k * m) by (nonlinear_arith);
    assert(((2 as real) * c) * h == c * h + c * h) by (nonlinear_arith);
    assert((1 as real) * h == h) by (nonlinear_arith);
    lemma_cancel((2 as real) * c, 1 as real, h);
}

/// The curve of one half changes nothing.
#[verifier::spinoff_prover]
pub proof fn lemma_midtones_of_half(m: real, x: real)
    requires
        (2 as real) * m == 1 as real,
        0 as real <= x <= 1 as real,
    ensures
        midtones(m, x) == x,
{
    lemma_midtones(m, x);
    assert((1 as real) - m == m);
    assert(m * ((1 as real) - x) + m * x == m) by (nonlinear_arith);
    assert(m * x == x * m) by (nonlinear_arith);
    lemma_cancel(midtones(m, x), x, m);
}

/// How the denominator grows with the sample.
pub proof fn lemma_denominator_moves(m: real, k: real, x: real, y: real)
    by (nonlinear_arith)
    ensures
        m * ((1 as real) - y) + k * y == m * ((1 as real) - x) + k * x + (k - m) * (y - x),
{
}

/// A product of a sum.
pub proof fn lemma_distributes(a: real, b: real, c: real)
    by (nonlinear_arith)
    ensures
        a * (b + c) == a * b + a * c,
        (a + b) * c == a * c + b * c,
        (a - b) * c == a * c - b * c,
        a * (b - c) == a * b - a * c,
{
}

/// The curve keeps the order.
#[verifier::spinoff_prover]
pub proof fn lemma_midtones_grow(m: real, x: real, y: real)
    requires
        is_balance(m),
        0 as real <= x < y <= 1 as real,
    ensures
        midtones(m, x) < midtones(m, y),
{
    let k = (1 as real) - m;
    let w = y - x;
    let u = midtones(m, x);
    let v = midtones(m, y);
    let d = denominator(m, x);
    let e = denominator(m, y);
    lemma_midtones(m, x);
    lemma_midtones(m, y);
    lemma_denominator(m, y);
    if v <= u {
        lemma_not_negative(u - v, e);
        lemma_distributes(u, v, e);
        assert(u * e >= v * e);
        lemma_denominator_moves(m, k, x, y);
        assert(e == d + (k - m) * w);
        lemma_distributes(u, d, (k - m) * w);
        assert(u * ((k - m) * w) == (u * (k - m)) * w) by (nonlinear_arith);
        lemma_distributes(k, y, x);
        lemma_distributes(k, u * (k - m), w);
        lemma_denominator(k, u);
        assert((1 as real) - k == m);
        assert(k - u * (k - m) == k * ((1 as real) - u) + m * u) by (nonlinear_arith);
        lemma_positive(k - u * (k - m), w);
    }
}

/// The foot of the curve as the stretch computes it.
#[verifier::spinoff_prover]
pub proof fn lemma_foot(a: real, b: real)
    ensures
        (2 as real * a - 1 as real) * b - a == -denominator(a, b),
{
    assert((2 as real * a - 1 as real) * b - a == -(a * ((1 as real) - b) + ((1 as real) - a) * b))
        by (nonlinear_arith);
}

/// The curve as the stretch computes it.
#[verifier::spinoff_prover]
pub proof fn lemma_curve(a: real, b: real)
    requires
        is_balance(a),
        0 as real <= b <= 1 as real,
    ensures
        (a - 1 as real) * b / ((2 as real * a - 1 as real) * b - a) == midtones(a, b),
{
    let d = (2 as real * a - 1 as real) * b - a;
    let e = denominator(a, b);
    let z = (a - 1 as real) * b / d;
    lemma_foot(a, b);
    lemma_denominator(a, b);
    lemma_midtones(a, b);
    lemma_quotient((a - 1 as real) * b, d);
    assert((a - 1 as real) * b == -(((1 as real) - a) * b)) by (nonlinear_arith);
    assert(z * (-e) == -(z * e)) by (nonlinear_arith);
    assert(d == -e);
    lemma_cancel(z, midtones(a, b), e);
}

} // verus!
