//! What holds of the curves where the arithmetic is exact.

use super::curve::{
    denominator, is_balance, lemma_curve, lemma_denominator, lemma_foot, lemma_midtones,
    lemma_midtones_grow, lemma_midtones_of_half, lemma_midtones_points, lemma_midtones_undo,
    midtones,
};
use super::reals::{lemma_divided, lemma_product, lemma_quotient_product, product};
use crate::arith::{
    Arithmetic, Binary, Formula, Test, Unary, binary_answers, clamp_answers, evals, test_answers,
    unary_answers, whole,
};
use crate::plane::maps;
use crate::stretch::toned;
use vstd::prelude::*;

verus! {

// ---------------------------------------------------------------------------
// Exact arithmetic
// ---------------------------------------------------------------------------

/// `val` gives the real numbers that samples stand for, and the arithmetic is
/// exact on them: whole numbers and their quotients, sums, differences, products,
/// quotients, magnitudes, minima, maxima, clamps and the order.
pub open spec fn is_exact<T, A: Arithmetic<T>>(ops: &A, val: spec_fn(T) -> real) -> bool {
    &&& forall|p: u64, q: u64, v: T| #[trigger]
        call_ensures(A::ratio, (ops, p, q), v) && q > 0 ==> val(v) * (q as int as real) == p as int
            as real
    &&& forall|n: usize, v: T| #[trigger]
        call_ensures(A::count, (ops, n), v) ==> val(v) == n as int as real
    &&& forall|x: T, y: T, v: T| #[trigger]
        binary_answers(ops, Binary::Plus, x, y, v) ==> val(v) == val(x) + val(y)
    &&& forall|x: T, y: T, v: T| #[trigger]
        binary_answers(ops, Binary::Minus, x, y, v) ==> val(v) == val(x) - val(y)
    &&& forall|x: T, y: T, v: T| #[trigger]
        binary_answers(ops, Binary::Times, x, y, v) ==> val(v) == val(x) * val(y)
    &&& forall|x: T, y: T, v: T| #[trigger]
        binary_answers(ops, Binary::Over, x, y, v) && val(y) != 0 as real ==> val(v) == val(x)
            / val(y)
    &&& forall|x: T, y: T, v: T| #[trigger]
        binary_answers(ops, Binary::Most, x, y, v) ==> val(v) == if val(x) < val(y) {
            val(y)
        } else {
            val(x)
        }
    &&& forall|x: T, y: T, v: T| #[trigger]
        binary_answers(ops, Binary::Least, x, y, v) ==> val(v) == if val(y) < val(x) {
            val(y)
        } else {
            val(x)
        }
    &&& forall|x: T, v: T| #[trigger]
        unary_answers(ops, Unary::Abs, x, v) ==> val(v) == if val(x) < 0 as real {
            -val(x)
        } else {
            val(x)
        }
    &&& forall|x: T, l: T, h: T, v: T| #[trigger]
        clamp_answers(ops, x, l, h, v) && val(l) <= val(h) ==> val(v) == if val(x) < val(l) {
            val(l)
        } else if val(x) > val(h) {
            val(h)
        } else {
            val(x)
        }
    &&& forall|x: T, y: T, r: bool| #[trigger]
        test_answers(ops, Test::Less, x, y, r) ==> r == (val(x) < val(y))
    &&& forall|x: T, y: T, r: bool| #[trigger]
        test_answers(ops, Test::LessOrEqual, x, y, r) ==> r == (val(x) <= val(y))
    &&& forall|x: T, y: T, r: bool| #[trigger]
        test_answers(ops, Test::Equal, x, y, r) ==> r == (val(x) == val(y))
}

/// The values of a formula stand for `r`.
pub open spec fn denotes<T, A: Arithmetic<T>>(
    ops: &A,
    val: spec_fn(T) -> real,
    f: Formula<T>,
    r: real,
) -> bool {
    forall|v: T| #[trigger] evals(ops, f, v) ==> val(v) == r
}

/// A whole number.
#[verifier::spinoff_prover]
pub proof fn lemma_exact_whole<T, A: Arithmetic<T>>(ops: &A, val: spec_fn(T) -> real, p: u64)
    requires
        is_exact(ops, val),
    ensures
        denotes(ops, val, whole(p), p as int as real),
{
    assert forall|v: T| #[trigger] evals(ops, whole(p), v) implies val(v) == p as int as real by {
        assert(call_ensures(A::ratio, (ops, p, 1u64), v));
        let r = val(v);
        assert(r * (1 as real) == r) by (nonlinear_arith);
    }
}

/// A quotient of whole numbers.
#[verifier::spinoff_prover]
pub proof fn lemma_exact_ratio<T, A: Arithmetic<T>>(
    ops: &A,
    val: spec_fn(T) -> real,
    p: u64,
    q: u64,
)
    requires
        is_exact(ops, val),
        q > 0,
    ensures
        denotes(ops, val, Formula::Ratio(p, q), (p as int as real) / (q as int as real)),
{
    assert forall|v: T| #[trigger] evals(ops, Formula::Ratio(p, q), v) implies val(v) == (p as int
        as real) / (q as int as real) by {
        assert(call_ensures(A::ratio, (ops, p, q), v));
        lemma_divided(val(v), p as int as real, q as int as real);
    }
}

/// A sum, a difference, a product or a quotient.
#[verifier::spinoff_prover]
pub proof fn lemma_exact_binary<T, A: Arithmetic<T>>(
    ops: &A,
    val: spec_fn(T) -> real,
    op: Binary,
    f: Formula<T>,
    g: Formula<T>,
    a: real,
    b: real,
)
    requires
        is_exact(ops, val),
        denotes(ops, val, f, a),
        denotes(ops, val, g, b),
    ensures
        op == Binary::Plus ==> denotes(ops, val, f.with(op, g), a + b),
        op == Binary::Minus ==> denotes(ops, val, f.with(op, g), a - b),
        op == Binary::Times ==> denotes(ops, val, f.with(op, g), a * b),
        op == Binary::Over && b != 0 as real ==> denotes(ops, val, f.with(op, g), a / b),
{
    assert forall|v: T| #[trigger] evals(ops, f.with(op, g), v) implies (op == Binary::Plus
        ==> val(v) == a + b) && (op == Binary::Minus ==> val(v) == a - b) && (op == Binary::Times
        ==> val(v) == a * b) && (op == Binary::Over && b != 0 as real ==> val(v) == a / b) by {
        let (x, y) = choose|x: T, y: T|
            evals(ops, f, x) && evals(ops, g, y) && #[trigger] binary_answers(ops, op, x, y, v);
    }
}

/// A product, as one that is not taken apart.
#[verifier::spinoff_prover]
pub proof fn lemma_exact_product<T, A: Arithmetic<T>>(
    ops: &A,
    val: spec_fn(T) -> real,
    f: Formula<T>,
    g: Formula<T>,
    a: real,
    b: real,
)
    requires
        is_exact(ops, val),
        denotes(ops, val, f, a),
        denotes(ops, val, g, b),
    ensures
        denotes(ops, val, f.times(g), product(a, b)),
{
    lemma_exact_binary(ops, val, Binary::Times, f, g, a, b);
    lemma_product(a, b);
}

/// A quotient times its divisor.
#[verifier::spinoff_prover]
pub proof fn lemma_exact_quotient<T, A: Arithmetic<T>>(
    ops: &A,
    val: spec_fn(T) -> real,
    f: Formula<T>,
    g: Formula<T>,
    a: real,
    b: real,
    v: T,
)
    requires
        is_exact(ops, val),
        denotes(ops, val, f, a),
        denotes(ops, val, g, b),
        b != 0 as real,
        evals(ops, f.over(g), v),
    ensures
        val(v) == a / b,
        product(val(v), b) == a,
{
    lemma_exact_binary(ops, val, Binary::Over, f, g, a, b);
    lemma_quotient_product(a, b);
}

/// A number limited to the unit range.
pub open spec fn into_unit(a: real) -> real {
    if a < 0 as real {
        0 as real
    } else if a > 1 as real {
        1 as real
    } else {
        a
    }
}

/// A formula limited to the unit range.
#[verifier::spinoff_prover]
pub proof fn lemma_exact_unit<T, A: Arithmetic<T>>(
    ops: &A,
    val: spec_fn(T) -> real,
    f: Formula<T>,
    a: real,
)
    requires
        is_exact(ops, val),
        denotes(ops, val, f, a),
    ensures
        denotes(ops, val, f.unit(), into_unit(a)),
{
    lemma_exact_whole(ops, val, 0);
    lemma_exact_whole(ops, val, 1);
    assert forall|v: T| #[trigger] evals(ops, f.unit(), v) implies val(v) == into_unit(a) by {
        let (x, l, h) = choose|x: T, l: T, h: T|
            evals(ops, f, x) && evals(ops, whole(0), l) && evals(ops, whole(1), h)
                && #[trigger] clamp_answers(ops, x, l, h, v);
    }
}

// ---------------------------------------------------------------------------
// The midtones transfer function
// ---------------------------------------------------------------------------

/// On samples of the unit range the stretch's curve is the midtones transfer
/// function: neither its guard nor its clamp takes effect.
#[verifier::spinoff_prover]
pub proof fn lemma_tone_is_exact<T, A: Arithmetic<T>>(
    ops: &A,
    val: spec_fn(T) -> real,
    m: T,
    x: T,
)
    requires
        is_exact(ops, val),
        is_balance(val(m)),
        0 as real <= val(x) <= 1 as real,
    ensures
        denotes(ops, val, toned(m)(x), midtones(val(m), val(x))),
{
    let (a, b) = (val(m), val(x));
    let (f, g) = (Formula::Given(m), Formula::Given(x));
    let twice = whole(2).times(f);
    let slope = twice.minus(whole(1));
    let tilt = slope.times(g);
    let foot = tilt.minus(f);
    let below = f.minus(whole(1));
    let above = below.times(g);
    let curve = above.over(foot);
    lemma_exact_whole(ops, val, 1);
    lemma_exact_whole(ops, val, 2);
    lemma_exact_binary(ops, val, Binary::Times, whole(2), f, 2 as real, a);
    lemma_exact_binary(ops, val, Binary::Minus, twice, whole(1), 2 as real * a, 1 as real);
    lemma_exact_binary(ops, val, Binary::Times, slope, g, 2 as real * a - 1 as real, b);
    let d = (2 as real * a - 1 as real) * b - a;
    lemma_exact_binary(ops, val, Binary::Minus, tilt, f, (2 as real * a - 1 as real) * b, a);
    lemma_exact_binary(ops, val, Binary::Minus, f, whole(1), a, 1 as real);
    lemma_exact_binary(ops, val, Binary::Times, below, g, a - 1 as real, b);
    let e = denominator(a, b);
    lemma_denominator(a, b);
    lemma_foot(a, b);
    lemma_exact_binary(ops, val, Binary::Over, above, foot, (a - 1 as real) * b, d);
    let y = midtones(a, b);
    lemma_midtones(a, b);
    lemma_curve(a, b);
    lemma_exact_unit(ops, val, curve, y);
    assert forall|v: T| #[trigger] evals(ops, toned(m)(x), v) implies val(v) == y by {
        let tiny = Formula::<T>::Ratio(1, 10_000_000_000);
        assert(toned(m)(x) == Formula::select(Test::Less, foot.abs(), tiny, g, curve.unit()));
        let (s, t, r) = choose|s: T, t: T, r: bool|
            evals(ops, foot.abs(), s) && evals(ops, tiny, t) && #[trigger] test_answers(
                ops,
                Test::Less,
                s,
                t,
                r,
            ) && (if r {
                evals(ops, g, v)
            } else {
                evals(ops, curve.unit(), v)
            });
        let c = choose|c: T|
            evals(ops, foot, c) && #[trigger] unary_answers(ops, Unary::Abs, c, s);
        assert(val(s) == e);
        assert(call_ensures(A::ratio, (ops, 1u64, 10_000_000_000u64), t));
        let w = val(t);
        assert(w * (10_000_000_000 as real) == 1 as real);
        assert(w < e) by (nonlinear_arith)
            requires
                w * (10_000_000_000 as real) == 1 as real,
                10_000 as real * e >= 1 as real,
        ;
    }
}

/// The midtones curve of a plane keeps the unit range, its ends and the order,
/// and sends the balance to one half; that of one half changes nothing.
#[verifier::spinoff_prover]
pub proof fn lemma_midtones_of_plane<T, A: Arithmetic<T>>(
    ops: &A,
    val: spec_fn(T) -> real,
    m: T,
    data: Seq<T>,
    out: Seq<T>,
)
    requires
        is_exact(ops, val),
        is_balance(val(m)),
        forall|i: int| 0 <= i < data.len() ==> 0 as real <= val(#[trigger] data[i]) <= 1 as real,
        maps(ops, toned(m), data, out),
    ensures
        out.len() == data.len(),
        forall|i: int| 0 <= i < out.len() ==> 0 as real <= val(#[trigger] out[i]) <= 1 as real,
        forall|i: int|
            0 <= i < out.len() && val(data[i]) == 0 as real ==> val(#[trigger] out[i])
                == 0 as real,
        forall|i: int|
            0 <= i < out.len() && val(data[i]) == 1 as real ==> val(#[trigger] out[i])
                == 1 as real,
        forall|i: int|
            0 <= i < out.len() && val(data[i]) == val(m) ==> (2 as real) * val(#[trigger] out[i])
                == 1 as real,
        forall|i: int, j: int|
            0 <= i < out.len() && 0 <= j < out.len() && val(data[i]) < val(data[j]) ==> val(
                #[trigger] out[i],
            ) < val(#[trigger] out[j]),
        (2 as real) * val(m) == 1 as real ==> forall|i: int|
            0 <= i < out.len() ==> val(#[trigger] out[i]) == val(data[i]),
{
    let a = val(m);
    assert forall|i: int| 0 <= i < out.len() implies val(#[trigger] out[i]) == midtones(
        a,
        val(data[i]),
    ) by {
        lemma_tone_is_exact(ops, val, m, data[i]);
        assert(evals(ops, toned(m)(data[i]), out[i]));
    }
    lemma_midtones_points(a);
    assert forall|i: int| 0 <= i < out.len() implies 0 as real <= val(#[trigger] out[i])
        <= 1 as real by {
        lemma_midtones(a, val(data[i]));
    }
    assert forall|i: int, j: int|
        0 <= i < out.len() && 0 <= j < out.len() && val(data[i]) < val(data[j]) implies val(
        #[trigger] out[i],
    ) < val(#[trigger] out[j]) by {
        lemma_midtones_grow(a, val(data[i]), val(data[j]));
    }
    if (2 as real) * a == 1 as real {
        assert forall|i: int| 0 <= i < out.len() implies val(#[trigger] out[i]) == val(
            data[i],
        ) by {
            lemma_midtones_of_half(a, val(data[i]));
        }
    }
}

/// The midtones curves of two balances that add up to one undo each other.
#[verifier::spinoff_prover]
pub proof fn lemma_midtones_are_undone<T, A: Arithmetic<T>>(
    ops: &A,
    val: spec_fn(T) -> real,
    m: T,
    n: T,
    data: Seq<T>,
    mid: Seq<T>,
    out: Seq<T>,
)
    requires
        is_exact(ops, val),
        is_balance(val(m)),
        val(m) + val(n) == 1 as real,
        forall|i: int| 0 <= i < data.len() ==> 0 as real <= val(#[trigger] data[i]) <= 1 as real,
        maps(ops, toned(m), data, mid),
        maps(ops, toned(n), mid, out),
    ensures
        out.len() == data.len(),
        forall|i: int| 0 <= i < out.len() ==> val(#[trigger] out[i]) == val(data[i]),
{
    assert forall|i: int| 0 <= i < out.len() implies val(#[trigger] out[i]) == val(data[i]) by {
        let x = val(data[i]);
        lemma_tone_is_exact(ops, val, m, data[i]);
        assert(evals(ops, toned(m)(data[i]), mid[i]));
        lemma_midtones(val(m), x);
        lemma_tone_is_exact(ops, val, n, mid[i]);
        assert(evals(ops, toned(n)(mid[i]), out[i]));
        lemma_midtones_undo(val(m), x);
    }
}

} // verus!
