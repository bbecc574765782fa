//! Products and sums of real numbers.

use vstd::prelude::*;

verus! {

/// The product of two numbers.
#[verifier::opaque]
pub open spec fn product(a: real, b: real) -> real {
    a * b
}

/// A product is a product.
#[verifier::spinoff_prover]
pub proof fn lemma_product(a: real, b: real)
    ensures
        product(a, b) == a * b,
{
    reveal(product);
}

/// Two factors in two orders.
#[verifier::spinoff_prover]
pub proof fn lemma_product_commutes(a: real, b: real)
    ensures
        product(a, b) == product(b, a),
{
    reveal(product);
    assert(a * b == b * a) by (nonlinear_arith);
}

/// Three factors in two orders.
#[verifier::spinoff_prover]
pub proof fn lemma_product_regroups(a: real, b: real, c: real)
    ensures
        product(a, product(b, c)) == product(b, product(a, c)),
{
    reveal(product);
    assert(a * (b * c) == b * (a * c)) by (nonlinear_arith);
}

/// A product of a sum or a difference.
#[verifier::spinoff_prover]
pub proof fn lemma_product_distributes(a: real, b: real, c: real)
    ensures
        product(a, b + c) == product(a, b) + product(a, c),
        product(a, b - c) == product(a, b) - product(a, c),
        product(a + b, c) == product(a, c) + product(b, c),
        product(a - b, c) == product(a, c) - product(b, c),
{
    reveal(product);
    assert(a * (b + c) == a * b + a * c) by (nonlinear_arith);
    assert(a * (b - c) == a * b - a * c) by (nonlinear_arith);
    assert((a + b) * c == a * c + b * c) by (nonlinear_arith);
    assert((a - b) * c == a * c - b * c) by (nonlinear_arith);
}

/// A product with zero or one.
#[verifier::spinoff_prover]
pub proof fn lemma_product_of_unit(a: real)
    ensures
        product(a, 0 as real) == 0 as real,
        product(0 as real, a) == 0 as real,
        product(a, 1 as real) == a,
        product(1 as real, a) == a,
{
    reveal(product);
    assert(a * (0 as real) == 0 as real) by (nonlinear_arith);
    assert((0 as real) * a == 0 as real) by (nonlinear_arith);
    assert(a * (1 as real) == a) by (nonlinear_arith);
    assert((1 as real) * a == a) by (nonlinear_arith);
}

/// A product of numbers that are not negative.
#[verifier::spinoff_prover]
pub proof fn lemma_product_not_negative(a: real, b: real)
    requires
        a >= 0 as real,
        b >= 0 as real,
    ensures
        product(a, b) >= 0 as real,
{
    reveal(product);
    assert(a * b >= 0 as real) by (nonlinear_arith)
        requires
            a >= 0 as real,
            b >= 0 as real,
    ;
}

/// A square is not negative.
#[verifier::spinoff_prover]
pub proof fn lemma_square(a: real)
    ensures
        product(a, a) >= 0 as real,
{
    if a >= 0 as real {
        lemma_product_not_negative(a, a);
    } else {
        lemma_product_not_negative(-a, -a);
        reveal(product);
        assert((-a) * (-a) == a * a) by (nonlinear_arith);
    }
}

/// A quotient times its divisor, and the quotient of a number and itself.
#[verifier::spinoff_prover]
pub proof fn lemma_quotient_product(n: real, d: real)
    requires
        d != 0 as real,
    ensures
        product(n / d, d) == n,
        d / d == 1 as real,
{
    reveal(product);
    assert((n / d) * d == n) by (nonlinear_arith)
        requires
            d != 0 as real,
    ;
    assert(d / d == 1 as real) by (nonlinear_arith)
        requires
            d != 0 as real,
    ;
}

/// A number by which another one is a product.
pub proof fn lemma_divided(v: real, p: real, q: real)
    by (nonlinear_arith)
    requires
        v * q == p,
        q > 0 as real,
    ensures
        v == p / q,
{
}

/// A quotient of numbers that are not negative.
pub proof fn lemma_quotient_not_negative(n: real, d: real)
    by (nonlinear_arith)
    requires
        n >= 0 as real,
        d > 0 as real,
    ensures
        n / d >= 0 as real,
{
}

/// A part of a positive number is a share of it.
#[verifier::spinoff_prover]
pub proof fn lemma_share_of(n: real, d: real)
    requires
        0 as real <= n <= d,
        d > 0 as real,
    ensures
        0 as real <= n / d <= 1 as real,
{
    assert(0 as real <= n / d) by (nonlinear_arith)
        requires
            0 as real <= n,
            d > 0 as real,
    ;
    assert(n / d <= 1 as real) by (nonlinear_arith)
        requires
            n <= d,
            d > 0 as real,
    ;
}

/// The sum of `f` at the first `n` places.
pub open spec fn sum(f: spec_fn(int) -> real, n: int) -> real
    decreases n,
{
    if n <= 0 {
        0 as real
    } else {
        sum(f, n - 1) + f(n - 1)
    }
}

/// Functions that agree have the same sum.
pub proof fn lemma_sum_equal(f: spec_fn(int) -> real, g: spec_fn(int) -> real, n: int)
    requires
        forall|i: int| 0 <= i < n ==> #[trigger] f(i) == g(i),
    ensures
        sum(f, n) == sum(g, n),
    decreases n,
{
    if n > 0 {
        lemma_sum_equal(f, g, n - 1);
        assert(f(n - 1) == g(n - 1));
    }
}

/// The sum of two functions.
pub proof fn lemma_sum_plus(f: spec_fn(int) -> real, g: spec_fn(int) -> real, n: int)
    ensures
        sum(|i: int| f(i) + g(i), n) == sum(f, n) + sum(g, n),
    decreases n,
{
    if n > 0 {
        lemma_sum_plus(f, g, n - 1);
    }
}

/// The difference of two functions.
pub proof fn lemma_sum_minus(f: spec_fn(int) -> real, g: spec_fn(int) -> real, n: int)
    ensures
        sum(|i: int| f(i) - g(i), n) == sum(f, n) - sum(g, n),
    decreases n,
{
    if n > 0 {
        lemma_sum_minus(f, g, n - 1);
    }
}

/// A multiple of a function.
pub proof fn lemma_sum_scaled(a: real, f: spec_fn(int) -> real, n: int)
    ensures
        sum(|i: int| product(a, f(i)), n) == product(a, sum(f, n)),
    decreases n,
{
    lemma_product_of_unit(a);
    if n > 0 {
        lemma_sum_scaled(a, f, n - 1);
        lemma_product_distributes(a, sum(f, n - 1), f(n - 1));
    }
}

/// A function that vanishes.
pub proof fn lemma_sum_zero(f: spec_fn(int) -> real, n: int)
    requires
        forall|i: int| 0 <= i < n ==> #[trigger] f(i) == 0 as real,
    ensures
        sum(f, n) == 0 as real,
    decreases n,
{
    if n > 0 {
        lemma_sum_zero(f, n - 1);
        assert(f(n - 1) == 0 as real);
    }
}

/// A function that is not negative.
pub proof fn lemma_sum_not_negative(f: spec_fn(int) -> real, n: int)
    requires
        forall|i: int| 0 <= i < n ==> #[trigger] f(i) >= 0 as real,
    ensures
        sum(f, n) >= 0 as real,
    decreases n,
{
    if n > 0 {
        lemma_sum_not_negative(f, n - 1);
        assert(f(n - 1) >= 0 as real);
    }
}

/// Two sums in two orders.
pub proof fn lemma_sum_swap(f: spec_fn(int, int) -> real, m: int, n: int)
    ensures
        sum(|p: int| sum(|j: int| f(j, p), m), n) == sum(|j: int| sum(|p: int| f(j, p), n), m),
    decreases n,
{
    let rows = |p: int| sum(|j: int| f(j, p), m);
    let cols = |j: int| sum(|p: int| f(j, p), n);
    if n <= 0 {
        assert forall|j: int| 0 <= j < m implies #[trigger] cols(j) == 0 as real by {}
        lemma_sum_zero(cols, m);
    } else {
        lemma_sum_swap(f, m, n - 1);
        let fewer = |j: int| sum(|p: int| f(j, p), n - 1);
        let last = |j: int| f(j, n - 1);
        lemma_sum_plus(fewer, last, m);
        let both = |j: int| fewer(j) + last(j);
        assert forall|j: int| 0 <= j < m implies #[trigger] cols(j) == both(j) by {}
        lemma_sum_equal(cols, both, m);
        assert(rows(n - 1) == sum(|j: int| f(j, n - 1), m));
        lemma_sum_equal(last, |j: int| f(j, n - 1), m);
    }
}

} // verus!
