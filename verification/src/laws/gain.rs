//! How much noise of unit variance each scale of the starlet transform holds.
//!
//! The noise of a scale comes from the noise of the samples through the weights
//! with which the transform of a single bright pixel fills that scale: its
//! variance is the sum of their squares.

use super::exact::{
    denotes, is_exact, lemma_exact_binary, lemma_exact_product, lemma_exact_ratio,
    lemma_exact_whole,
};
use super::reals::{
    lemma_product_commutes, lemma_product_distributes, lemma_product_of_unit,
    lemma_product_regroups, product,
};
use crate::arith::{Arithmetic, Binary, Formula, evals};
use crate::denoise::{
    decomposes, decomposes_at, horizontal_at, lemma_mirrored_in_range, lemma_mirrored_inside,
    lemma_mirrored_negated, lemma_mirrored_reflected, mirrored, noise_level_of, smooths_via,
    spline_weight, stride, tap, vertical_at, vertical_term,
};
use crate::plane::{lemma_pixel, lemma_place};
use vstd::prelude::*;

verus! {

// ---------------------------------------------------------------------------
// The response to a single sample
// ---------------------------------------------------------------------------

/// Two to the power `j`.
pub open spec fn doubled(j: int) -> int
    decreases j,
{
    if j <= 0 {
        1
    } else {
        2 * doubled(j - 1)
    }
}

/// What `j` smoothings make of a line that is one at place 0 and zero
/// elsewhere, at place `n`: each weighs five samples by 1, 4, 6, 4 and 1
/// sixteenths, twice as far apart as the one before it.
pub open spec fn response(j: int, n: int) -> real
    decreases j,
{
    if j <= 0 {
        if n == 0 {
            1 as real
        } else {
            0 as real
        }
    } else {
        let d = doubled(j - 1);
        (response(j - 1, n - 2 * d) + (4 as real) * response(j - 1, n - d) + (6 as real) * response(
            j - 1,
            n,
        ) + (4 as real) * response(j - 1, n + d) + response(j - 1, n + 2 * d)) / (16 as real)
    }
}

/// How far the response reaches.
pub open spec fn reach(j: int) -> int {
    2 * (doubled(j) - 1)
}

/// The response vanishes beyond its reach.
proof fn lemma_reach(j: int, n: int)
    requires
        0 <= j,
        n > reach(j) || n < -reach(j),
    ensures
        response(j, n) == 0 as real,
    decreases j,
{
    if j > 0 {
        let d = doubled(j - 1);
        lemma_doubled(j - 1);
        lemma_reach(j - 1, n - 2 * d);
        lemma_reach(j - 1, n - d);
        lemma_reach(j - 1, n);
        lemma_reach(j - 1, n + d);
        lemma_reach(j - 1, n + 2 * d);
    }
}

/// A power of two is positive.
proof fn lemma_doubled(j: int)
    ensures
        doubled(j) >= 1,
    decreases j,
{
    if j > 0 {
        lemma_doubled(j - 1);
    }
}

// ---------------------------------------------------------------------------
// Sums of products of responses
// ---------------------------------------------------------------------------

/// The product of two responses, shifted by `a` and `b`.
pub open spec fn echo(j: int, a: int, k: int, b: int) -> spec_fn(int) -> real {
    |t: int| product(response(j, t + a), response(k, t + b))
}

/// The sum of `f` over `n` places from `lo` on.
pub open spec fn total(f: spec_fn(int) -> real, lo: int, n: int) -> real
    decreases n,
{
    if n <= 0 {
        0 as real
    } else {
        total(f, lo, n - 1) + f(lo + n - 1)
    }
}

/// A sum in two parts.
proof fn lemma_total_splits(f: spec_fn(int) -> real, lo: int, m: int, n: int)
    requires
        0 <= m <= n,
    ensures
        total(f, lo, n) == total(f, lo, m) + total(f, lo + m, n - m),
    decreases n,
{
    if n > m {
        lemma_total_splits(f, lo, m, n - 1);
        assert(lo + n - 1 == (lo + m) + (n - m) - 1);
    }
}

/// A sum of zeros.
proof fn lemma_total_of_zeros(f: spec_fn(int) -> real, lo: int, n: int)
    requires
        forall|t: int| lo <= t < lo + n ==> #[trigger] f(t) == 0 as real,
    ensures
        total(f, lo, n) == 0 as real,
    decreases n,
{
    if n > 0 {
        lemma_total_of_zeros(f, lo, n - 1);
        assert(f(lo + n - 1) == 0 as real);
    }
}

/// A sum over more than the places where the function does not vanish.
proof fn lemma_total_of_window(f: spec_fn(int) -> real, r: int, lo: int, n: int)
    requires
        0 <= r,
        lo <= -r,
        lo + n > r,
        forall|t: int| t > r || t < -r ==> #[trigger] f(t) == 0 as real,
    ensures
        total(f, lo, n) == total(f, -r, 2 * r + 1),
{
    lemma_total_splits(f, lo, -r - lo, n);
    lemma_total_of_zeros(f, lo, -r - lo);
    lemma_total_splits(f, -r, 2 * r + 1, n - (-r - lo));
    lemma_total_of_zeros(f, r + 1, n - (-r - lo) - (2 * r + 1));
    assert(lo + (-r - lo) == -r);
    assert(-r + (2 * r + 1) == r + 1);
}

/// Shifting both responses shifts the places.
proof fn lemma_shifted(j: int, a: int, k: int, b: int, e: int, lo: int, n: int)
    ensures
        total(echo(j, a, k, b), lo, n) == total(echo(j, a + e, k, b + e), lo - e, n),
    decreases n,
{
    if n > 0 {
        lemma_shifted(j, a, k, b, e, lo, n - 1);
        let t = lo + n - 1;
        assert(t + a == (lo - e + n - 1) + (a + e));
        assert(t + b == (lo - e + n - 1) + (b + e));
    }
}

/// The order of two responses does not matter.
proof fn lemma_commuted(j: int, a: int, k: int, b: int, lo: int, n: int)
    ensures
        total(echo(j, a, k, b), lo, n) == total(echo(k, b, j, a), lo, n),
    decreases n,
{
    if n > 0 {
        lemma_commuted(j, a, k, b, lo, n - 1);
        let t = lo + n - 1;
        lemma_product_commutes(response(j, t + a), response(k, t + b));
    }
}

/// A product with a smoothed response.
#[verifier::spinoff_prover]
proof fn lemma_smoothed_product(p: real, q: real, r: real, s: real, t: real, m: real, x: real)
    requires
        m == (p + (4 as real) * q + (6 as real) * r + (4 as real) * s + t) / (16 as real),
    ensures
        (16 as real) * product(m, x) == product(p, x) + (4 as real) * product(q, x) + (6 as real)
            * product(r, x) + (4 as real) * product(s, x) + product(t, x),
{
    reveal(product);
    assert((16 as real) * (m * x) == p * x + (4 as real) * (q * x) + (6 as real) * (r * x) + (
    4 as real) * (s * x) + t * x) by (nonlinear_arith)
        requires
            m == (p + (4 as real) * q + (6 as real) * r + (4 as real) * s + t) / (16 as real),
    ;
}

/// A sum with a smoothed response is a sum of five sums with the response
/// before it.
proof fn lemma_smoothed_total(j: int, a: int, k: int, b: int, lo: int, n: int)
    requires
        0 <= j,
    ensures
        (16 as real) * total(echo(j + 1, a, k, b), lo, n) == total(
            echo(j, a - 2 * doubled(j), k, b),
            lo,
            n,
        ) + (4 as real) * total(echo(j, a - doubled(j), k, b), lo, n) + (6 as real) * total(
            echo(j, a, k, b),
            lo,
            n,
        ) + (4 as real) * total(echo(j, a + doubled(j), k, b), lo, n) + total(
            echo(j, a + 2 * doubled(j), k, b),
            lo,
            n,
        ),
    decreases n,
{
    if n > 0 {
        lemma_smoothed_total(j, a, k, b, lo, n - 1);
        let t = lo + n - 1;
        let d = doubled(j);
        lemma_smoothed_product(
            response(j, t + a - 2 * d),
            response(j, t + a - d),
            response(j, t + a),
            response(j, t + a + d),
            response(j, t + a + 2 * d),
            response(j + 1, t + a),
            response(k, t + b),
        );
        assert(t + (a - 2 * d) == t + a - 2 * d);
        assert(t + (a - d) == t + a - d);
        assert(t + (a + d) == t + a + d);
        assert(t + (a + 2 * d) == t + a + 2 * d);
    }
}

/// The sum of the products of a response with itself shifted by `s`.
pub open spec fn auto(j: int, s: int) -> real {
    total(echo(j, 0, j, s), -reach(j), 2 * reach(j) + 1)
}

/// The sum of the products of a response with the next one shifted by `s`.
pub open spec fn mixed(j: int, s: int) -> real {
    total(echo(j, 0, j + 1, s), -reach(j), 2 * reach(j) + 1)
}

/// Any places that hold the first response give the same sum.
proof fn lemma_any_window(j: int, a: int, k: int, b: int, lo: int, n: int)
    requires
        0 <= j,
        lo + a <= -reach(j),
        lo + a + n > reach(j),
    ensures
        total(echo(j, a, k, b), lo, n) == total(
            echo(j, 0, k, b - a),
            -reach(j),
            2 * reach(j) + 1,
        ),
{
    lemma_doubled(j);
    lemma_shifted(j, a, k, b, -a, lo, n);
    let f = echo(j, 0, k, b - a);
    assert forall|t: int| t > reach(j) || t < -reach(j) implies #[trigger] f(t) == 0 as real by {
        lemma_reach(j, t);
        lemma_product_of_unit(response(k, t + (b - a)));
    }
    lemma_total_of_window(f, reach(j), lo + a, n);
}

/// A sum with the next response, from sums of the response with itself.
proof fn lemma_mixed(j: int, s: int)
    requires
        0 <= j,
    ensures
        (16 as real) * mixed(j, s) == auto(j, s - 2 * doubled(j)) + (4 as real) * auto(
            j,
            s - doubled(j),
        ) + (6 as real) * auto(j, s) + (4 as real) * auto(j, s + doubled(j)) + auto(
            j,
            s + 2 * doubled(j),
        ),
{
    let (lo, n) = (-reach(j), 2 * reach(j) + 1);
    let d = doubled(j);
    lemma_commuted(j, 0, j + 1, s, lo, n);
    lemma_smoothed_total(j, s, j, 0, lo, n);
    lemma_commuted(j, s - 2 * d, j, 0, lo, n);
    lemma_commuted(j, s - d, j, 0, lo, n);
    lemma_commuted(j, s, j, 0, lo, n);
    lemma_commuted(j, s + d, j, 0, lo, n);
    lemma_commuted(j, s + 2 * d, j, 0, lo, n);
}

/// The next response with itself, from sums of the response with the next one.
proof fn lemma_next(j: int, s: int)
    requires
        0 <= j,
    ensures
        (16 as real) * auto(j + 1, s) == mixed(j, s + 2 * doubled(j)) + (4 as real) * mixed(
            j,
            s + doubled(j),
        ) + (6 as real) * mixed(j, s) + (4 as real) * mixed(j, s - doubled(j)) + mixed(
            j,
            s - 2 * doubled(j),
        ),
{
    let (lo, n) = (-reach(j + 1), 2 * reach(j + 1) + 1);
    let d = doubled(j);
    lemma_doubled(j);
    lemma_smoothed_total(j, 0, j + 1, s, lo, n);
    lemma_any_window(j, 0 - 2 * d, j + 1, s, lo, n);
    lemma_any_window(j, 0 - d, j + 1, s, lo, n);
    lemma_any_window(j, 0, j + 1, s, lo, n);
    lemma_any_window(j, 0 + d, j + 1, s, lo, n);
    lemma_any_window(j, 0 + 2 * d, j + 1, s, lo, n);
    assert(s - (0 - 2 * d) == s + 2 * d);
    assert(s - (0 - d) == s + d);
    assert(s - (0 + d) == s - d);
    assert(s - (0 + 2 * d) == s - 2 * d);
}

/// A response with itself, shifted either way.
proof fn lemma_symmetric(j: int, s: int)
    requires
        0 <= j,
        s >= 0,
    ensures
        auto(j, -s) == auto(j, s),
{
    lemma_doubled(j);
    let (lo, n) = (-reach(j) - s, 2 * reach(j) + 2 * s + 1);
    lemma_any_window(j, 0, j, s, lo, n);
    lemma_commuted(j, 0, j, s, lo, n);
    lemma_any_window(j, s, j, 0, lo, n);
    assert(0 - s == -s);
}

/// A response does not meet itself shifted by four times its spacing or more.
proof fn lemma_apart(j: int, s: int)
    requires
        0 <= j,
        s >= 4 * doubled(j) || s <= -4 * doubled(j),
    ensures
        auto(j, s) == 0 as real,
{
    lemma_doubled(j);
    let f = echo(j, 0, j, s);
    assert forall|t: int| -reach(j) <= t < -reach(j) + (2 * reach(j) + 1) implies #[trigger] f(t)
        == 0 as real by {
        lemma_reach(j, t + s);
        lemma_product_of_unit(response(j, t + 0));
    }
    lemma_total_of_zeros(f, -reach(j), 2 * reach(j) + 1);
}

/// The sums of a response with itself at `m` times its spacing, doubled: from
/// those of the response before it.
proof fn lemma_step(j: int)
    requires
        0 <= j,
    ensures
        ({
            let d = doubled(j);
            let (a, b, c, e) = (auto(j, 0), auto(j, d), auto(j, 2 * d), auto(j, 3 * d));
            let f = doubled(j + 1);
            &&& (256 as real) * auto(j + 1, 0) == (70 as real) * a + (112 as real) * b + (
            56 as real) * c + (16 as real) * e
            &&& (256 as real) * auto(j + 1, f) == (28 as real) * a + (64 as real) * b + (
            71 as real) * c + (56 as real) * e
            &&& (256 as real) * auto(j + 1, 2 * f) == a + (8 as real) * b + (28 as real) * c + (
            56 as real) * e
            &&& (256 as real) * auto(j + 1, 3 * f) == c + (8 as real) * e
            &&& (16 as real) * mixed(j, 0) == (6 as real) * a + (8 as real) * b + (2 as real) * c
        }),
{
    let d = doubled(j);
    lemma_doubled(j);
    lemma_symmetric(j, d);
    lemma_symmetric(j, 2 * d);
    lemma_symmetric(j, 3 * d);
    lemma_apart(j, 4 * d);
    lemma_apart(j, 5 * d);
    lemma_apart(j, 6 * d);
    lemma_apart(j, 7 * d);
    lemma_apart(j, 8 * d);
    lemma_apart(j, 9 * d);
    lemma_apart(j, 10 * d);
    lemma_apart(j, -4 * d);
    lemma_mixed_at(j, -2);
    lemma_mixed_at(j, -1);
    lemma_mixed_at(j, 0);
    lemma_mixed_at(j, 1);
    lemma_mixed_at(j, 2);
    lemma_mixed_at(j, 3);
    lemma_mixed_at(j, 4);
    lemma_mixed_at(j, 5);
    lemma_mixed_at(j, 6);
    lemma_mixed_at(j, 7);
    lemma_mixed_at(j, 8);
    lemma_next_at(j, 0);
    lemma_next_at(j, 1);
    lemma_next_at(j, 2);
    lemma_next_at(j, 3);
    assert(-(2 * d) == -2 * d && -d == -1 * d && -(3 * d) == -3 * d);
    assert(0 * d == 0 && 1 * d == d);
}

/// A sum with the next response at `m` times the spacing.
proof fn lemma_mixed_at(j: int, m: int)
    requires
        0 <= j,
    ensures
        (16 as real) * mixed(j, m * doubled(j)) == auto(j, (m - 2) * doubled(j)) + (4 as real)
            * auto(j, (m - 1) * doubled(j)) + (6 as real) * auto(j, m * doubled(j)) + (4 as real)
            * auto(j, (m + 1) * doubled(j)) + auto(j, (m + 2) * doubled(j)),
{
    let d = doubled(j);
    lemma_mixed(j, m * d);
    assert((m - 2) * d == m * d - 2 * d) by (nonlinear_arith);
    assert((m - 1) * d == m * d - d) by (nonlinear_arith);
    assert((m + 1) * d == m * d + d) by (nonlinear_arith);
    assert((m + 2) * d == m * d + 2 * d) by (nonlinear_arith);
}

/// The next response with itself at `m` times its own spacing.
proof fn lemma_next_at(j: int, m: int)
    requires
        0 <= j,
    ensures
        (16 as real) * auto(j + 1, m * doubled(j + 1)) == mixed(j, (2 * m + 2) * doubled(j)) + (
        4 as real) * mixed(j, (2 * m + 1) * doubled(j)) + (6 as real) * mixed(
            j,
            (2 * m) * doubled(j),
        ) + (4 as real) * mixed(j, (2 * m - 1) * doubled(j)) + mixed(
            j,
            (2 * m - 2) * doubled(j),
        ),
{
    let d = doubled(j);
    lemma_next(j, m * doubled(j + 1));
    assert(m * (2 * d) == (2 * m) * d) by (nonlinear_arith);
    assert((2 * m + 2) * d == (2 * m) * d + 2 * d) by (nonlinear_arith);
    assert((2 * m + 1) * d == (2 * m) * d + d) by (nonlinear_arith);
    assert((2 * m - 1) * d == (2 * m) * d - d) by (nonlinear_arith);
    assert((2 * m - 2) * d == (2 * m) * d - 2 * d) by (nonlinear_arith);
}

// ---------------------------------------------------------------------------
// The sums, scale by scale
// ---------------------------------------------------------------------------

/// The sums of a single sample.
proof fn lemma_sums_at_0()
    ensures
        auto(0, 0) == 1 as real,
        auto(0, doubled(0)) == 0 as real,
        auto(0, 2 * doubled(0)) == 0 as real,
        auto(0, 3 * doubled(0)) == 0 as real,
{
    assert(doubled(0) == 1);
    assert(reach(0) == 0);
    assert(response(0, 0) == 1 as real);
    lemma_product_of_unit(1 as real);
    assert forall|s: int| auto(0, s) == product(response(0, 0), response(0, s)) by {
        let f = echo(0, 0, 0, s);
        assert(f(0) == product(response(0, 0), response(0, s)));
        assert(total(f, 0, 1) == total(f, 0, 0) + f(0 + 1 - 1));
        assert(-reach(0) == 0 && 2 * reach(0) + 1 == 1);
    }
    assert(auto(0, 0) == product(response(0, 0), response(0, 0)));
    assert(auto(0, 1) == product(response(0, 0), response(0, 1)));
    assert(auto(0, 2) == product(response(0, 0), response(0, 2)));
    assert(auto(0, 3) == product(response(0, 0), response(0, 3)));
}

/// The sums after 1 smoothing.
proof fn lemma_sums_at_1()
    ensures
        auto(1, 0) == (70 as real) / (256 as real),
        auto(1, doubled(1)) == (28 as real) / (256 as real),
        auto(1, 2 * doubled(1)) == (1 as real) / (256 as real),
        auto(1, 3 * doubled(1)) == (0 as real) / (256 as real),
{
    lemma_sums_at_0();
    lemma_step(0);
}

/// The sums after 2 smoothings.
proof fn lemma_sums_at_2()
    ensures
        auto(2, 0) == (8092 as real) / (65536 as real),
        auto(2, doubled(2)) == (3823 as real) / (65536 as real),
        auto(2, 2 * doubled(2)) == (322 as real) / (65536 as real),
        auto(2, 3 * doubled(2)) == (1 as real) / (65536 as real),
{
    lemma_sums_at_1();
    lemma_step(1);
}

/// The sums after 3 smoothings.
proof fn lemma_sums_at_3()
    ensures
        auto(3, 0) == (1012664 as real) / (16777216 as real),
        auto(3, doubled(3)) == (494166 as real) / (16777216 as real),
        auto(3, 2 * doubled(3)) == (47748 as real) / (16777216 as real),
        auto(3, 3 * doubled(3)) == (330 as real) / (16777216 as real),
{
    lemma_sums_at_2();
    lemma_step(2);
}

/// The sums after 4 smoothings.
proof fn lemma_sums_at_4()
    ensures
        auto(4, 0) == (128912240 as real) / (4294967296 as real),
        auto(4, doubled(4)) == (63389804 as real) / (4294967296 as real),
        auto(4, 2 * doubled(4)) == (6321416 as real) / (4294967296 as real),
        auto(4, 3 * doubled(4)) == (50388 as real) / (4294967296 as real),
{
    lemma_sums_at_3();
    lemma_step(3);
}

/// The sums after 5 smoothings.
proof fn lemma_sums_at_5()
    ensures
        auto(5, 0) == (16478320352 as real) / (1099511627776 as real),
        auto(5, doubled(5)) == (8118132440 as real) / (1099511627776 as real),
        auto(5, 2 * doubled(5)) == (815852048 as real) / (1099511627776 as real),
        auto(5, 3 * doubled(5)) == (6724520 as real) / (1099511627776 as real),
{
    lemma_sums_at_4();
    lemma_step(4);
}

/// The sums after 6 smoothings.
proof fn lemma_sums_at_6()
    ensures
        auto(6, 0) == (2108508564928 as real) / (281474976710656 as real),
        auto(6, doubled(6)) == (1039255514544 as real) / (281474976710656 as real),
        auto(6, 2 * doubled(6)) == (104643810336 as real) / (281474976710656 as real),
        auto(6, 3 * doubled(6)) == (869648208 as real) / (281474976710656 as real),
{
    lemma_sums_at_5();
    lemma_step(5);
}

/// The sums after 7 smoothings.
proof fn lemma_sums_at_7()
    ensures
        auto(7, 0) == (269866184924032 as real) / (72057594037927936 as real),
        auto(7, doubled(7)) == (133029003582304 as real) / (72057594037927936 as real),
        auto(7, 2 * doubled(7)) == (13401279670336 as real) / (72057594037927936 as real),
        auto(7, 3 * doubled(7)) == (111600996000 as real) / (72057594037927936 as real),
{
    lemma_sums_at_6();
    lemma_step(6);
}

/// By how much the four decimals of a noise level may miss the noise gain: the
/// last one is rounded, at the finest scale it is cut off, and at the fifth
/// scale it is one too small.
pub open spec fn level_error(j: int) -> real {
    if j == 0 {
        (1 as real) / (10_000 as real)
    } else if j == 4 {
        (1 as real) / (8_000 as real)
    } else {
        (1 as real) / (20_000 as real)
    }
}

/// The sum of squares of a scale is the square of `level`, up to its error.
pub open spec fn is_gain_of(j: int, level: real, squares: real) -> bool {
    &&& product(level - level_error(j), level - level_error(j)) <= squares
    &&& squares <= product(level + level_error(j), level + level_error(j))
}

/// The noise level of scale 0.
#[verifier::spinoff_prover]
proof fn lemma_level_at_0(a: real, b: real, c: real, level: real)
    requires
        a == auto(0, 0),
        b == mixed(0, 0),
        c == auto(1, 0),
        level == (8907 as real) / (10_000 as real),
    ensures
        is_gain_of(0, level, product(a, a) - (2 as real) * product(b, b) + product(c, c)),
{
    lemma_sums_at_0();
    lemma_sums_at_1();
    lemma_step(0);
    reveal(product);
    let t = level_error(0);
    assert((level - t) * (level - t) <= a * a - (2 as real) * (b * b) + c * c && a * a - (2 as real)
        * (b * b) + c * c <= (level + t) * (level + t)) by (nonlinear_arith)
        requires
            a == (256 as real) / (256 as real),
            b == (96 as real) / (256 as real),
            c == (70 as real) / (256 as real),
            level == (8907 as real) / (10_000 as real),
            t == (1 as real) / (10000 as real),
    ;
}

/// The noise level of scale 1.
#[verifier::spinoff_prover]
proof fn lemma_level_at_1(a: real, b: real, c: real, level: real)
    requires
        a == auto(1, 0),
        b == mixed(1, 0),
        c == auto(2, 0),
        level == (2007 as real) / (10_000 as real),
    ensures
        is_gain_of(1, level, product(a, a) - (2 as real) * product(b, b) + product(c, c)),
{
    lemma_sums_at_1();
    lemma_sums_at_2();
    lemma_step(1);
    reveal(product);
    let t = level_error(1);
    assert((level - t) * (level - t) <= a * a - (2 as real) * (b * b) + c * c && a * a - (2 as real)
        * (b * b) + c * c <= (level + t) * (level + t)) by (nonlinear_arith)
        requires
            a == (17920 as real) / (65536 as real),
            b == (10336 as real) / (65536 as real),
            c == (8092 as real) / (65536 as real),
            level == (2007 as real) / (10_000 as real),
            t == (1 as real) / (20000 as real),
    ;
}

/// The noise level of scale 2.
#[verifier::spinoff_prover]
proof fn lemma_level_at_2(a: real, b: real, c: real, level: real)
    requires
        a == auto(2, 0),
        b == mixed(2, 0),
        c == auto(3, 0),
        level == (855 as real) / (10_000 as real),
    ensures
        is_gain_of(2, level, product(a, a) - (2 as real) * product(b, b) + product(c, c)),
{
    lemma_sums_at_2();
    lemma_sums_at_3();
    lemma_step(2);
    reveal(product);
    let t = level_error(2);
    assert((level - t) * (level - t) <= a * a - (2 as real) * (b * b) + c * c && a * a - (2 as real)
        * (b * b) + c * c <= (level + t) * (level + t)) by (nonlinear_arith)
        requires
            a == (2071552 as real) / (16777216 as real),
            b == (1276480 as real) / (16777216 as real),
            c == (1012664 as real) / (16777216 as real),
            level == (855 as real) / (10_000 as real),
            t == (1 as real) / (20000 as real),
    ;
}

/// The noise level of scale 3.
#[verifier::spinoff_prover]
proof fn lemma_level_at_3(a: real, b: real, c: real, level: real)
    requires
        a == auto(3, 0),
        b == mixed(3, 0),
        c == auto(4, 0),
        level == (412 as real) / (10_000 as real),
    ensures
        is_gain_of(3, level, product(a, a) - (2 as real) * product(b, b) + product(c, c)),
{
    lemma_sums_at_3();
    lemma_sums_at_4();
    lemma_step(3);
    reveal(product);
    let t = level_error(3);
    assert((level - t) * (level - t) <= a * a - (2 as real) * (b * b) + c * c && a * a - (2 as real)
        * (b * b) + c * c <= (level + t) * (level + t)) by (nonlinear_arith)
        requires
            a == (259241984 as real) / (4294967296 as real),
            b == (161996928 as real) / (4294967296 as real),
            c == (128912240 as real) / (4294967296 as real),
            level == (412 as real) / (10_000 as real),
            t == (1 as real) / (20000 as real),
    ;
}

/// The noise level of scale 4.
#[verifier::spinoff_prover]
proof fn lemma_level_at_4(a: real, b: real, c: real, level: real)
    requires
        a == auto(4, 0),
        b == mixed(4, 0),
        c == auto(5, 0),
        level == (203 as real) / (10_000 as real),
    ensures
        is_gain_of(4, level, product(a, a) - (2 as real) * product(b, b) + product(c, c)),
{
    lemma_sums_at_4();
    lemma_sums_at_5();
    lemma_step(4);
    reveal(product);
    let t = level_error(4);
    assert((level - t) * (level - t) <= a * a - (2 as real) * (b * b) + c * c && a * a - (2 as real)
        * (b * b) + c * c <= (level + t) * (level + t)) by (nonlinear_arith)
        requires
            a == (33001533440 as real) / (1099511627776 as real),
            b == (20691755264 as real) / (1099511627776 as real),
            c == (16478320352 as real) / (1099511627776 as real),
            level == (203 as real) / (10_000 as real),
            t == (1 as real) / (8000 as real),
    ;
}

/// The noise level of scale 5.
#[verifier::spinoff_prover]
proof fn lemma_level_at_5(a: real, b: real, c: real, level: real)
    requires
        a == auto(5, 0),
        b == mixed(5, 0),
        c == auto(6, 0),
        level == (102 as real) / (10_000 as real),
    ensures
        is_gain_of(5, level, product(a, a) - (2 as real) * product(b, b) + product(c, c)),
{
    lemma_sums_at_5();
    lemma_sums_at_6();
    lemma_step(5);
    reveal(product);
    let t = level_error(5);
    assert((level - t) * (level - t) <= a * a - (2 as real) * (b * b) + c * c && a * a - (2 as real)
        * (b * b) + c * c <= (level + t) * (level + t)) by (nonlinear_arith)
        requires
            a == (4218450010112 as real) / (281474976710656 as real),
            b == (2647146971648 as real) / (281474976710656 as real),
            c == (2108508564928 as real) / (281474976710656 as real),
            level == (102 as real) / (10_000 as real),
            t == (1 as real) / (20000 as real),
    ;
}

/// The noise level of scale 6.
#[verifier::spinoff_prover]
proof fn lemma_level_at_6(a: real, b: real, c: real, level: real)
    requires
        a == auto(6, 0),
        b == mixed(6, 0),
        c == auto(7, 0),
        level == (51 as real) / (10_000 as real),
    ensures
        is_gain_of(6, level, product(a, a) - (2 as real) * product(b, b) + product(c, c)),
{
    lemma_sums_at_6();
    lemma_sums_at_7();
    lemma_step(6);
    reveal(product);
    let t = level_error(6);
    assert((level - t) * (level - t) <= a * a - (2 as real) * (b * b) + c * c && a * a - (2 as real)
        * (b * b) + c * c <= (level + t) * (level + t)) by (nonlinear_arith)
        requires
            a == (539778192621568 as real) / (72057594037927936 as real),
            b == (338790130025472 as real) / (72057594037927936 as real),
            c == (269866184924032 as real) / (72057594037927936 as real),
            level == (51 as real) / (10_000 as real),
            t == (1 as real) / (20000 as real),
    ;
}

// ---------------------------------------------------------------------------
// The transform of a single bright pixel
// ---------------------------------------------------------------------------

/// A number of sixteenths.
proof fn lemma_sixteenths(k: int, q: real, x: real)
    requires
        0 <= k < 5,
        q == (spline_weight(k) as int as real) / (16u64 as int as real),
    ensures
        k == 0 || k == 4 ==> (16 as real) * product(q, x) == x,
        k == 1 || k == 3 ==> (16 as real) * product(q, x) == (4 as real) * x,
        k == 2 ==> (16 as real) * product(q, x) == (6 as real) * x,
{
    reveal(product);
    if k == 0 || k == 4 {
        assert((16 as real) * (q * x) == x) by (nonlinear_arith)
            requires
                q == (1 as real) / (16 as real),
        ;
    } else if k == 1 || k == 3 {
        assert((16 as real) * (q * x) == (4 as real) * x) by (nonlinear_arith)
            requires
                q == (4 as real) / (16 as real),
        ;
    } else {
        assert((16 as real) * (q * x) == (6 as real) * x) by (nonlinear_arith)
            requires
                q == (6 as real) / (16 as real),
        ;
    }
}

/// A weighted sample.
proof fn lemma_weighted<T, A: Arithmetic<T>>(
    ops: &A,
    val: spec_fn(T) -> real,
    k: int,
    x: T,
) -> (r: real)
    requires
        is_exact(ops, val),
        0 <= k < 5,
    ensures
        denotes(ops, val, Formula::Ratio(spline_weight(k), 16).times(Formula::Given(x)), r),
        k == 0 || k == 4 ==> (16 as real) * r == val(x),
        k == 1 || k == 3 ==> (16 as real) * r == (4 as real) * val(x),
        k == 2 ==> (16 as real) * r == (6 as real) * val(x),
{
    let q = (spline_weight(k) as int as real) / (16u64 as int as real);
    lemma_exact_ratio(ops, val, spline_weight(k), 16);
    lemma_exact_product(
        ops,
        val,
        Formula::Ratio(spline_weight(k), 16),
        Formula::Given(x),
        q,
        val(x),
    );
    lemma_sixteenths(k, q, val(x));
    product(q, val(x))
}

/// The vertical pass in numbers.
proof fn lemma_vertical_value<T, A: Arithmetic<T>>(
    ops: &A,
    val: spec_fn(T) -> real,
    data: Seq<T>,
    step: int,
    w: int,
    h: int,
    i: int,
    v: T,
)
    requires
        is_exact(ops, val),
        evals(ops, vertical_at(data, step, w, h, i), v),
    ensures
        (16 as real) * val(v) == val(data[tap(i / w, 0, step, h) * w + i % w]) + (4 as real) * val(
            data[tap(i / w, 1, step, h) * w + i % w],
        ) + (6 as real) * val(data[tap(i / w, 2, step, h) * w + i % w]) + (4 as real) * val(
            data[tap(i / w, 3, step, h) * w + i % w],
        ) + val(data[tap(i / w, 4, step, h) * w + i % w]),
{
    let f = |k: int| vertical_term(data, step, w, h, i, k);
    let at = |k: int| data[tap(i / w, k, step, h) * w + i % w];
    let a = lemma_weighted(ops, val, 0, at(0));
    let b = lemma_weighted(ops, val, 1, at(1));
    let c = lemma_weighted(ops, val, 2, at(2));
    let d = lemma_weighted(ops, val, 3, at(3));
    let e = lemma_weighted(ops, val, 4, at(4));
    lemma_exact_binary(ops, val, Binary::Plus, f(0), f(1), a, b);
    lemma_exact_binary(ops, val, Binary::Plus, f(0).plus(f(1)), f(2), a + b, c);
    lemma_exact_binary(ops, val, Binary::Plus, f(0).plus(f(1)).plus(f(2)), f(3), a + b + c, d);
    lemma_exact_binary(
        ops,
        val,
        Binary::Plus,
        f(0).plus(f(1)).plus(f(2)).plus(f(3)),
        f(4),
        a + b + c + d,
        e,
    );
}

/// The horizontal pass in numbers.
proof fn lemma_horizontal_value<T, A: Arithmetic<T>>(
    ops: &A,
    val: spec_fn(T) -> real,
    data: Seq<T>,
    step: int,
    w: int,
    i: int,
    v: T,
)
    requires
        is_exact(ops, val),
        evals(ops, horizontal_at(data, step, w, i, 5), v),
    ensures
        (16 as real) * val(v) == val(data[(i / w) * w + tap(i % w, 0, step, w)]) + (4 as real)
            * val(data[(i / w) * w + tap(i % w, 1, step, w)]) + (6 as real) * val(
            data[(i / w) * w + tap(i % w, 2, step, w)],
        ) + (4 as real) * val(data[(i / w) * w + tap(i % w, 3, step, w)]) + val(
            data[(i / w) * w + tap(i % w, 4, step, w)],
        ),
{
    reveal_with_fuel(horizontal_at, 6);
    let at = |k: int| data[(i / w) * w + tap(i % w, k, step, w)];
    let f = |k: int| Formula::Ratio(spline_weight(k), 16).times(Formula::Given(at(k)));
    let h = |n: int| horizontal_at(data, step, w, i, n);
    lemma_exact_whole(ops, val, 0);
    let z = 0u64 as int as real;
    let a = lemma_weighted(ops, val, 0, at(0));
    let b = lemma_weighted(ops, val, 1, at(1));
    let c = lemma_weighted(ops, val, 2, at(2));
    let d = lemma_weighted(ops, val, 3, at(3));
    let e = lemma_weighted(ops, val, 4, at(4));
    lemma_exact_binary(ops, val, Binary::Plus, h(0), f(0), z, a);
    lemma_exact_binary(ops, val, Binary::Plus, h(1), f(1), z + a, b);
    lemma_exact_binary(ops, val, Binary::Plus, h(2), f(2), z + a + b, c);
    lemma_exact_binary(ops, val, Binary::Plus, h(3), f(3), z + a + b + c, d);
    lemma_exact_binary(ops, val, Binary::Plus, h(4), f(4), z + a + b + c + d, e);
}

/// A response far from the borders does not notice that lines are mirrored
/// there.
proof fn lemma_mirrored_response(j: int, p: int, m: int, n: int, x: int)
    requires
        0 <= j,
        0 <= p < n,
        -2 * doubled(j) <= m <= 2 * doubled(j),
        reach(j + 1) < x,
        x + reach(j + 1) < n - 1,
    ensures
        0 <= mirrored(p + m, n) < n,
        response(j, mirrored(p + m, n) - x) == response(j, p + m - x),
{
    lemma_doubled(j);
    let q = p + m;
    lemma_mirrored_in_range(q, n);
    if q < 0 {
        lemma_mirrored_negated(q, n);
        lemma_mirrored_inside(-q, n);
        lemma_reach(j, -q - x);
        lemma_reach(j, q - x);
    } else if q >= n {
        lemma_mirrored_reflected(q, n);
        lemma_mirrored_inside(2 * (n - 1) - q, n);
        lemma_reach(j, 2 * (n - 1) - q - x);
        lemma_reach(j, q - x);
    } else {
        lemma_mirrored_inside(q, n);
    }
}

/// A plane holds the response to a bright pixel at `(x, y)`: `j` smoothings
/// along the rows, `k` along the columns.
pub open spec fn holds_response<T>(
    val: spec_fn(T) -> real,
    plane: Seq<T>,
    w: int,
    h: int,
    x: int,
    y: int,
    j: int,
    k: int,
) -> bool {
    &&& plane.len() == w * h
    &&& forall|i: int|
        0 <= i < w * h ==> val(#[trigger] plane[i]) == product(
            response(j, i % w - x),
            response(k, i / w - y),
        )
}

/// A smoothing along one dimension.
#[verifier::spinoff_prover]
proof fn lemma_pass(j: int, t: int, c: real, s: real, v: Seq<real>)
    requires
        0 <= j,
        v.len() == 5,
        v[0] == product(response(j, t - 2 * doubled(j)), c),
        v[1] == product(response(j, t - doubled(j)), c),
        v[2] == product(response(j, t), c),
        v[3] == product(response(j, t + doubled(j)), c),
        v[4] == product(response(j, t + 2 * doubled(j)), c),
        (16 as real) * s == v[0] + (4 as real) * v[1] + (6 as real) * v[2] + (4 as real) * v[3]
            + v[4],
    ensures
        s == product(response(j + 1, t), c),
{
    let d = doubled(j);
    lemma_smoothed_product(
        response(j, t - 2 * d),
        response(j, t - d),
        response(j, t),
        response(j, t + d),
        response(j, t + 2 * d),
        response(j + 1, t),
        c,
    );
}

/// The vertical pass smooths the response along the columns.
proof fn lemma_vertical_response<T, A: Arithmetic<T>>(
    ops: &A,
    val: spec_fn(T) -> real,
    data: Seq<T>,
    w: int,
    h: int,
    x: int,
    y: int,
    j: int,
    mid: Seq<T>,
)
    requires
        is_exact(ops, val),
        0 <= j,
        0 <= w,
        reach(j + 1) < y,
        y + reach(j + 1) < h - 1,
        holds_response(val, data, w, h, x, y, j, j),
        mid.len() == data.len(),
        forall|i: int|
            0 <= i < data.len() ==> evals(
                ops,
                vertical_at(data, doubled(j), w, h, i),
                #[trigger] mid[i],
            ),
    ensures
        holds_response(val, mid, w, h, x, y, j, j + 1),
{
    let d = doubled(j);
    lemma_doubled(j);
    lemma_doubled(j + 1);
    assert forall|i: int| 0 <= i < w * h implies val(#[trigger] mid[i]) == product(
        response(j, i % w - x),
        response(j + 1, i / w - y),
    ) by {
        lemma_place(i, w, h);
        let (a, b) = (i % w, i / w);
        let c = response(j, a - x);
        lemma_vertical_value(ops, val, data, d, w, h, i, mid[i]);
        let at = |k: int| data[tap(b, k, d, h) * w + a];
        assert forall|k: int| 0 <= k < 5 implies val(#[trigger] at(k)) == product(
            response(j, b + (k - 2) * d - y),
            c,
        ) by {
            assert(-2 * d <= (k - 2) * d <= 2 * d) by (nonlinear_arith)
                requires
                    0 <= k < 5,
                    d >= 1,
            ;
            lemma_mirrored_response(j, b, (k - 2) * d, h, y);
            let p = tap(b, k, d, h);
            lemma_pixel(a, p, w, h);
            assert(val(data[p * w + a]) == product(response(j, a - x), response(j, p - y)));
            lemma_product_commutes(response(j, a - x), response(j, p - y));
        }
        let v = Seq::new(5, |k: int| val(at(k)));
        assert(val(at(0)) == product(response(j, b - y - 2 * d), c)) by {
            assert(b + (0 - 2) * d - y == b - y - 2 * d);
        }
        assert(val(at(1)) == product(response(j, b - y - d), c)) by {
            assert(b + (1 - 2) * d - y == b - y - d);
        }
        assert(val(at(2)) == product(response(j, b - y), c)) by {
            assert(b + (2 - 2) * d - y == b - y);
        }
        assert(val(at(3)) == product(response(j, b - y + d), c)) by {
            assert(b + (3 - 2) * d - y == b - y + d);
        }
        assert(val(at(4)) == product(response(j, b - y + 2 * d), c)) by {
            assert(b + (4 - 2) * d - y == b - y + 2 * d);
        }
        lemma_pass(j, b - y, c, val(mid[i]), v);
        lemma_product_commutes(response(j + 1, b - y), c);
    }
}

/// The horizontal pass smooths the response along the rows.
proof fn lemma_horizontal_response<T, A: Arithmetic<T>>(
    ops: &A,
    val: spec_fn(T) -> real,
    mid: Seq<T>,
    w: int,
    h: int,
    x: int,
    y: int,
    j: int,
    out: Seq<T>,
)
    requires
        is_exact(ops, val),
        0 <= j,
        0 <= h,
        reach(j + 1) < x,
        x + reach(j + 1) < w - 1,
        holds_response(val, mid, w, h, x, y, j, j + 1),
        out.len() == mid.len(),
        forall|i: int|
            0 <= i < mid.len() ==> evals(
                ops,
                horizontal_at(mid, doubled(j), w, i, 5),
                #[trigger] out[i],
            ),
    ensures
        holds_response(val, out, w, h, x, y, j + 1, j + 1),
{
    let d = doubled(j);
    lemma_doubled(j);
    lemma_doubled(j + 1);
    assert forall|i: int| 0 <= i < w * h implies val(#[trigger] out[i]) == product(
        response(j + 1, i % w - x),
        response(j + 1, i / w - y),
    ) by {
        lemma_place(i, w, h);
        let (a, b) = (i % w, i / w);
        let c = response(j + 1, b - y);
        lemma_horizontal_value(ops, val, mid, d, w, i, out[i]);
        let at = |k: int| mid[b * w + tap(a, k, d, w)];
        assert forall|k: int| 0 <= k < 5 implies val(#[trigger] at(k)) == product(
            response(j, a + (k - 2) * d - x),
            c,
        ) by {
            assert(-2 * d <= (k - 2) * d <= 2 * d) by (nonlinear_arith)
                requires
                    0 <= k < 5,
                    d >= 1,
            ;
            lemma_mirrored_response(j, a, (k - 2) * d, w, x);
            let p = tap(a, k, d, w);
            lemma_pixel(p, b, w, h);
            assert(val(mid[b * w + p]) == product(response(j, p - x), response(j + 1, b - y)));
        }
        let v = Seq::new(5, |k: int| val(at(k)));
        assert(val(at(0)) == product(response(j, a - x - 2 * d), c)) by {
            assert(a + (0 - 2) * d - x == a - x - 2 * d);
        }
        assert(val(at(1)) == product(response(j, a - x - d), c)) by {
            assert(a + (1 - 2) * d - x == a - x - d);
        }
        assert(val(at(2)) == product(response(j, a - x), c)) by {
            assert(a + (2 - 2) * d - x == a - x);
        }
        assert(val(at(3)) == product(response(j, a - x + d), c)) by {
            assert(a + (3 - 2) * d - x == a - x + d);
        }
        assert(val(at(4)) == product(response(j, a - x + 2 * d), c)) by {
            assert(a + (4 - 2) * d - x == a - x + 2 * d);
        }
        lemma_pass(j, a - x, c, val(out[i]), v);
    }
}

/// The holes of a scale.
proof fn lemma_stride(j: int)
    ensures
        stride(j) == doubled(j),
    decreases j,
{
    if j > 0 {
        lemma_stride(j - 1);
    }
}

/// The reach grows from scale to scale.
proof fn lemma_reach_grows(j: int, k: int)
    requires
        0 <= j <= k,
    ensures
        reach(j) <= reach(k),
        0 <= reach(j),
    decreases k - j,
{
    lemma_doubled(j);
    lemma_doubled(k);
    if j < k {
        lemma_reach_grows(j, k - 1);
        lemma_doubled(k - 1);
    }
}

/// The smooth planes of a bright pixel hold its response.
proof fn lemma_coarse_response<T, A: Arithmetic<T>>(
    ops: &A,
    val: spec_fn(T) -> real,
    channel: Seq<T>,
    w: int,
    h: int,
    x: int,
    y: int,
    coarse: Seq<Seq<T>>,
    details: Seq<Seq<T>>,
    j: int,
)
    requires
        is_exact(ops, val),
        0 <= j <= details.len(),
        reach(j) < x,
        x + reach(j) < w - 1,
        reach(j) < y,
        y + reach(j) < h - 1,
        holds_response(val, channel, w, h, x, y, 0, 0),
        decomposes(ops, channel, w, h, coarse, details),
    ensures
        holds_response(val, coarse[j], w, h, x, y, j, j),
    decreases j,
{
    lemma_reach_grows(0, j);
    if j > 0 {
        let k = j - 1;
        lemma_reach_grows(k, j);
        lemma_coarse_response(ops, val, channel, w, h, x, y, coarse, details, k);
        assert(decomposes_at(ops, w, h, coarse, details, k));
        lemma_stride(k);
        let mid = choose|mid: Seq<T>| #[trigger]
            smooths_via(ops, coarse[k], stride(k), w, h, mid, coarse[j]);
        lemma_vertical_response(ops, val, coarse[k], w, h, x, y, k, mid);
        lemma_horizontal_response(ops, val, mid, w, h, x, y, k, coarse[j]);
    }
}

// ---------------------------------------------------------------------------
// The energy of a scale
// ---------------------------------------------------------------------------

/// Two functions that agree on the places have the same sum there.
proof fn lemma_total_equal(f: spec_fn(int) -> real, g: spec_fn(int) -> real, lo: int, n: int)
    requires
        forall|t: int| lo <= t < lo + n ==> #[trigger] f(t) == g(t),
    ensures
        total(f, lo, n) == total(g, lo, n),
    decreases n,
{
    if n > 0 {
        lemma_total_equal(f, g, lo, n - 1);
        assert(f(lo + n - 1) == g(lo + n - 1));
    }
}

/// One row of a plane of products.
proof fn lemma_row_total(
    f: spec_fn(int) -> real,
    g: spec_fn(int) -> real,
    p: spec_fn(int) -> real,
    w: int,
    h: int,
    y: int,
    n: int,
)
    requires
        0 <= n <= w,
        0 <= y < h,
        forall|i: int| 0 <= i < w * h ==> #[trigger] p(i) == product(f(i % w), g(i / w)),
    ensures
        total(p, y * w, n) == product(total(f, 0, n), g(y)),
    decreases n,
{
    lemma_product_of_unit(g(y));
    if n > 0 {
        lemma_row_total(f, g, p, w, h, y, n - 1);
        lemma_pixel(n - 1, y, w, h);
        assert(p(y * w + (n - 1)) == product(f(n - 1), g(y)));
        assert(y * w + n - 1 == y * w + (n - 1));
        lemma_product_distributes(total(f, 0, n - 1), f(n - 1), g(y));
        assert(0 + n - 1 == n - 1);
    }
}

/// A plane of products of what depends on the column and what depends on the
/// row.
proof fn lemma_plane_total(
    f: spec_fn(int) -> real,
    g: spec_fn(int) -> real,
    p: spec_fn(int) -> real,
    w: int,
    h: int,
    y: int,
)
    requires
        0 <= w,
        0 <= y <= h,
        forall|i: int| 0 <= i < w * h ==> #[trigger] p(i) == product(f(i % w), g(i / w)),
    ensures
        total(p, 0, y * w) == product(total(f, 0, w), total(g, 0, y)),
    decreases y,
{
    lemma_product_of_unit(total(f, 0, w));
    if y > 0 {
        lemma_plane_total(f, g, p, w, h, y - 1);
        assert(0 <= (y - 1) * w <= y * w && y * w == (y - 1) * w + w) by (nonlinear_arith)
            requires
                y >= 1,
                w >= 0,
        ;
        lemma_total_splits(p, 0, (y - 1) * w, y * w);
        lemma_row_total(f, g, p, w, h, y - 1, w);
        lemma_product_distributes(total(f, 0, w), total(g, 0, y - 1), g(y - 1));
        assert(0 + y - 1 == y - 1);
    } else {
        assert(0 * w == 0);
    }
}

/// A product of products, with the inner factors exchanged.
proof fn lemma_product_of_products(p: real, q: real, r: real, s: real)
    ensures
        product(product(p, q), product(r, s)) == product(product(p, r), product(q, s)),
{
    let (pq, pr, qs) = (product(p, q), product(p, r), product(q, s));
    lemma_product_regroups(pq, r, s);
    lemma_product_commutes(pq, s);
    lemma_product_regroups(s, p, q);
    lemma_product_commutes(s, q);
    lemma_product_commutes(pr, qs);
    lemma_product_regroups(qs, p, r);
    lemma_product_commutes(qs, r);
    lemma_product_regroups(p, r, qs);
}

/// The square of a difference of products.
proof fn lemma_square_of_difference(p: real, q: real, r: real, s: real)
    ensures
        product(product(p, q) - product(r, s), product(p, q) - product(r, s)) == product(
            product(p, p),
            product(q, q),
        ) - (2 as real) * product(product(p, r), product(q, s)) + product(
            product(r, r),
            product(s, s),
        ),
{
    let (a, b) = (product(p, q), product(r, s));
    lemma_product_distributes(a - b, a, b);
    lemma_product_distributes(a, b, a);
    lemma_product_distributes(a, b, b);
    lemma_product_commutes(a, b);
    lemma_product_of_products(p, q, p, q);
    lemma_product_of_products(p, q, r, s);
    lemma_product_of_products(r, s, r, s);
}

/// A sum of combined functions.
proof fn lemma_combined_total(
    f: spec_fn(int) -> real,
    a: spec_fn(int) -> real,
    b: spec_fn(int) -> real,
    c: spec_fn(int) -> real,
    n: int,
)
    requires
        forall|t: int|
            0 <= t < n ==> #[trigger] f(t) == a(t) - (2 as real) * b(t) + c(t),
    ensures
        total(f, 0, n) == total(a, 0, n) - (2 as real) * total(b, 0, n) + total(c, 0, n),
    decreases n,
{
    if n > 0 {
        lemma_combined_total(f, a, b, c, n - 1);
        assert(f(0 + n - 1) == a(n - 1) - (2 as real) * b(n - 1) + c(n - 1));
    }
}

/// The sum over the columns or the rows of a frame.
proof fn lemma_line_totals(j: int, x: int, n: int)
    requires
        0 <= j,
        reach(j + 1) < x,
        x + reach(j + 1) < n - 1,
    ensures
        total(echo(j, -x, j, -x), 0, n) == auto(j, 0),
        total(echo(j, -x, j + 1, -x), 0, n) == mixed(j, 0),
        total(echo(j + 1, -x, j + 1, -x), 0, n) == auto(j + 1, 0),
{
    lemma_reach_grows(j, j + 1);
    lemma_any_window(j, -x, j, -x, 0, n);
    lemma_any_window(j, -x, j + 1, -x, 0, n);
    lemma_any_window(j + 1, -x, j + 1, -x, 0, n);
    assert(-x - (-x) == 0);
}

/// The squares of a detail plane of a bright pixel, added up.
proof fn lemma_energy<T>(
    val: spec_fn(T) -> real,
    detail: Seq<T>,
    w: int,
    h: int,
    x: int,
    y: int,
    j: int,
    f: spec_fn(int) -> real,
)
    requires
        0 <= j,
        reach(j + 1) < x,
        x + reach(j + 1) < w - 1,
        reach(j + 1) < y,
        y + reach(j + 1) < h - 1,
        detail.len() == w * h,
        forall|i: int|
            0 <= i < w * h ==> val(#[trigger] detail[i]) == product(
                response(j, i % w - x),
                response(j, i / w - y),
            ) - product(response(j + 1, i % w - x), response(j + 1, i / w - y)),
        forall|i: int|
            0 <= i < w * h ==> #[trigger] f(i) == product(val(detail[i]), val(detail[i])),
    ensures
        total(f, 0, w * h) == product(auto(j, 0), auto(j, 0)) - (2 as real) * product(
            mixed(j, 0),
            mixed(j, 0),
        ) + product(auto(j + 1, 0), auto(j + 1, 0)),
{
    let fine = |i: int|
        product(echo(j, -x, j, -x)(i % w), echo(j, -y, j, -y)(i / w));
    let both = |i: int|
        product(echo(j, -x, j + 1, -x)(i % w), echo(j, -y, j + 1, -y)(i / w));
    let next = |i: int|
        product(echo(j + 1, -x, j + 1, -x)(i % w), echo(j + 1, -y, j + 1, -y)(i / w));
    assert forall|i: int| 0 <= i < w * h implies #[trigger] f(i) == fine(i) - (2 as real) * both(i)
        + next(i) by {
        let (a, b) = (i % w, i / w);
        assert(a + -x == a - x && b + -y == b - y);
        lemma_square_of_difference(
            response(j, a - x),
            response(j, b - y),
            response(j + 1, a - x),
            response(j + 1, b - y),
        );
        assert(f(i) == product(val(detail[i]), val(detail[i])));
    }
    lemma_combined_total(f, fine, both, next, w * h);
    assert(h * w == w * h) by (nonlinear_arith);
    lemma_reach_grows(0, j + 1);
    lemma_plane_total(echo(j, -x, j, -x), echo(j, -y, j, -y), fine, w, h, h);
    lemma_plane_total(echo(j, -x, j + 1, -x), echo(j, -y, j + 1, -y), both, w, h, h);
    lemma_plane_total(echo(j + 1, -x, j + 1, -x), echo(j + 1, -y, j + 1, -y), next, w, h, h);
    lemma_line_totals(j, x, w);
    lemma_line_totals(j, y, h);
}

/// The noise level of a scale in numbers.
proof fn lemma_level_value<T, A: Arithmetic<T>>(
    ops: &A,
    val: spec_fn(T) -> real,
    j: int,
    level: T,
)
    requires
        is_exact(ops, val),
        0 <= j <= 6,
        evals(ops, noise_level_of(j), level),
    ensures
        is_gain_of(
            j,
            val(level),
            product(auto(j, 0), auto(j, 0)) - (2 as real) * product(mixed(j, 0), mixed(j, 0))
                + product(auto(j + 1, 0), auto(j + 1, 0)),
        ),
{
    let (a, b, c) = (auto(j, 0), mixed(j, 0), auto(j + 1, 0));
    if j == 0 {
        lemma_exact_ratio(ops, val, 8907, 10000);
        lemma_level_at_0(a, b, c, val(level));
    } else if j == 1 {
        lemma_exact_ratio(ops, val, 2007, 10000);
        lemma_level_at_1(a, b, c, val(level));
    } else if j == 2 {
        lemma_exact_ratio(ops, val, 855, 10000);
        lemma_level_at_2(a, b, c, val(level));
    } else if j == 3 {
        lemma_exact_ratio(ops, val, 412, 10000);
        lemma_level_at_3(a, b, c, val(level));
    } else if j == 4 {
        lemma_exact_ratio(ops, val, 203, 10000);
        lemma_level_at_4(a, b, c, val(level));
    } else if j == 5 {
        lemma_exact_ratio(ops, val, 102, 10000);
        lemma_level_at_5(a, b, c, val(level));
    } else {
        lemma_exact_ratio(ops, val, 51, 10000);
        lemma_level_at_6(a, b, c, val(level));
    }
}

/// A plane that is one at pixel `(x, y)` and zero elsewhere.
pub open spec fn is_bright_pixel<T>(
    val: spec_fn(T) -> real,
    plane: Seq<T>,
    w: int,
    h: int,
    x: int,
    y: int,
) -> bool {
    &&& plane.len() == w * h
    &&& forall|i: int|
        0 <= i < w * h ==> val(#[trigger] plane[i]) == if i % w == x && i / w == y {
            1 as real
        } else {
            0 as real
        }
}

/// The noise level of a scale is the noise gain of that scale: its square is
/// the sum of the squares of the detail plane that the transform gives for one
/// bright pixel far from the borders, up to the error of its last decimal.
pub proof fn lemma_noise_level_is_gain<T, A: Arithmetic<T>>(
    ops: &A,
    val: spec_fn(T) -> real,
    channel: Seq<T>,
    w: int,
    h: int,
    x: int,
    y: int,
    coarse: Seq<Seq<T>>,
    details: Seq<Seq<T>>,
    j: int,
    level: T,
    squares: spec_fn(int) -> real,
)
    requires
        is_exact(ops, val),
        0 <= j <= 6,
        j < details.len(),
        4 * doubled(j) <= x < w - 4 * doubled(j),
        4 * doubled(j) <= y < h - 4 * doubled(j),
        is_bright_pixel(val, channel, w, h, x, y),
        decomposes(ops, channel, w, h, coarse, details),
        forall|i: int|
            0 <= i < w * h ==> #[trigger] squares(i) == product(
                val(details[j][i]),
                val(details[j][i]),
            ),
        evals(ops, noise_level_of(j), level),
    ensures
        is_gain_of(j, val(level), total(squares, 0, w * h)),
{
    lemma_doubled(j);
    lemma_reach_grows(j, j + 1);
    assert(holds_response(val, channel, w, h, x, y, 0, 0)) by {
        assert forall|i: int| 0 <= i < w * h implies val(#[trigger] channel[i]) == product(
            response(0, i % w - x),
            response(0, i / w - y),
        ) by {
            lemma_product_of_unit(response(0, i % w - x));
        }
    }
    lemma_coarse_response(ops, val, channel, w, h, x, y, coarse, details, j);
    lemma_coarse_response(ops, val, channel, w, h, x, y, coarse, details, j + 1);
    assert(decomposes_at(ops, w, h, coarse, details, j));
    let detail = details[j];
    assert forall|i: int| 0 <= i < w * h implies val(#[trigger] detail[i]) == product(
        response(j, i % w - x),
        response(j, i / w - y),
    ) - product(response(j + 1, i % w - x), response(j + 1, i / w - y)) by {
        let (a, b) = (coarse[j][i], coarse[j + 1][i]);
        lemma_exact_binary(
            ops,
            val,
            Binary::Minus,
            Formula::Given(a),
            Formula::Given(b),
            val(a),
            val(b),
        );
        assert(evals(ops, Formula::Given(a).minus(Formula::Given(b)), detail[i]));
    }
    lemma_energy(val, detail, w, h, x, y, j, squares);
    lemma_level_value(ops, val, j, level);
}

} // verus!
