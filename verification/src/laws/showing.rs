//! What the arcsinh, logarithmic and statistical stretches and the 8-bit image show
//! of a sample where the arithmetic is exact.

use super::clipping::{every_sample, lemma_every_sample};
use super::edges::is_whole_part;
use super::exact::{
    denotes, into_unit, is_exact, lemma_exact_binary, lemma_exact_product, lemma_exact_ratio,
    lemma_exact_unit, lemma_exact_whole,
};
use super::exchange::{lemma_lit_is_picked, lit_of};
use super::order::{keys_follow, lemma_median_is_middle};
use super::peaks::lemma_is_positive;
use super::reals::{lemma_quotient_not_negative, lemma_share_of, product};
use super::surfaces::is_middle;
use crate::arith::{
    Arithmetic, Binary, Formula, Test, Unary, binary_answers, byte_answers, bytes_of,
    clamp_answers, decides, evals, test_answers, unary_answers, whole,
};
use crate::fits_io::{are_bytes, brightness};
use crate::frame::{Raster, maps_image};
use crate::plane::maps;
use crate::stretch::{
    all_samples, arcsinh_of, gamma_for, gamma_of, is_arcsinh_stretched, is_gamma_corrected,
    is_log_stretched, log_of,
};
use vstd::prelude::*;

verus! {

// ---------------------------------------------------------------------------
// Curves
// ---------------------------------------------------------------------------

/// The operation is that of numbers: it keeps zero and the order.
pub open spec fn bends<T, A: Arithmetic<T>>(
    ops: &A,
    val: spec_fn(T) -> real,
    op: Unary,
    g: spec_fn(real) -> real,
) -> bool {
    &&& forall|x: T, v: T| #[trigger] unary_answers(ops, op, x, v) ==> val(v) == g(val(x))
    &&& g(0 as real) == 0 as real
    &&& forall|a: real, b: real| a < b <==> #[trigger] g(a) < #[trigger] g(b)
}

/// On numbers that are not negative the operation is that of numbers: it keeps zero
/// and the order.
pub open spec fn bends_upward<T, A: Arithmetic<T>>(
    ops: &A,
    val: spec_fn(T) -> real,
    op: Unary,
    g: spec_fn(real) -> real,
) -> bool {
    &&& forall|x: T, v: T| #[trigger]
        unary_answers(ops, op, x, v) && val(x) >= 0 as real ==> val(v) == g(val(x))
    &&& g(0 as real) == 0 as real
    &&& forall|a: real, b: real|
        a >= 0 as real && b >= 0 as real ==> (a < b <==> #[trigger] g(a) < #[trigger] g(b))
}

/// An operation on a formula in numbers.
proof fn lemma_bent_value<T, A: Arithmetic<T>>(
    ops: &A,
    val: spec_fn(T) -> real,
    op: Unary,
    g: spec_fn(real) -> real,
    f: Formula<T>,
    a: real,
)
    requires
        forall|x: T, v: T| #[trigger]
            unary_answers(ops, op, x, v) && val(x) == a ==> val(v) == g(a),
        denotes(ops, val, f, a),
    ensures
        denotes(ops, val, f.apply(op), g(a)),
{
    assert forall|v: T| #[trigger] evals(ops, f.apply(op), v) implies val(v) == g(a) by {
        let u = choose|u: T| evals(ops, f, u) && #[trigger] unary_answers(ops, op, u, v);
    }
}

/// Quotients by a positive number keep the order.
proof fn lemma_quotients_keep_order(a: real, b: real, d: real)
    requires
        a <= b,
        d > 0 as real,
    ensures
        a / d <= b / d,
        a <= 0 as real ==> a / d <= 0 as real,
        b >= d ==> b / d >= 1 as real,
{
    assert(a / d <= b / d) by (nonlinear_arith)
        requires
            a <= b,
            d > 0 as real,
    ;
    assert(a <= 0 as real ==> a / d <= 0 as real) by (nonlinear_arith)
        requires
            d > 0 as real,
    ;
    assert(b >= d ==> b / d >= 1 as real) by (nonlinear_arith)
        requires
            d > 0 as real,
    ;
}

/// One share of a number and another.
proof fn lemma_products_keep_order(a: real, b: real, s: real)
    requires
        s > 0 as real,
    ensures
        a <= b ==> product(a, s) <= product(b, s),
        a <= 0 as real ==> product(a, s) <= 0 as real,
        a >= 1 as real ==> product(a, s) >= s,
{
    reveal(product);
    assert(a <= b ==> a * s <= b * s) by (nonlinear_arith)
        requires
            s > 0 as real,
    ;
    assert(a <= 0 as real ==> a * s <= 0 as real) by (nonlinear_arith)
        requires
            s > 0 as real,
    ;
    assert(a >= 1 as real ==> a * s >= s) by (nonlinear_arith)
        requires
            s > 0 as real,
    ;
}

/// One over a positive number is positive.
proof fn lemma_inverse_positive(f: real)
    by (nonlinear_arith)
    requires
        f > 0 as real,
    ensures
        (1 as real) / f > 0 as real,
{
}

/// The arcsinh stretch shows a sample as the inverse hyperbolic sine of the
/// sample over the factor, as a share of that of one over the factor. Black stays
/// black, white stays white, and no sample passes another, whatever channels they
/// are in.
pub proof fn lemma_arcsinh_keeps_order<T, A: Arithmetic<T>>(
    ops: &A,
    val: spec_fn(T) -> real,
    g: spec_fn(real) -> real,
    factor: T,
    image: Raster<T>,
    out: Raster<T>,
    c: int,
    i: int,
    d: int,
    j: int,
)
    requires
        is_exact(ops, val),
        bends(ops, val, Unary::Asinh, g),
        val(factor) > 0 as real,
        is_arcsinh_stretched(ops, factor, image, out),
        0 <= c < image.planes.len(),
        0 <= i < image.planes[c].len(),
        0 <= d < image.planes.len(),
        0 <= j < image.planes[d].len(),
    ensures
        val(out.planes[c][i]) == into_unit(
            g(product(val(image.planes[c][i]), (1 as real) / val(factor))) / g(
                (1 as real) / val(factor),
            ),
        ),
        val(image.planes[c][i]) <= 0 as real ==> val(out.planes[c][i]) == 0 as real,
        val(image.planes[c][i]) >= 1 as real ==> val(out.planes[c][i]) == 1 as real,
        val(image.planes[c][i]) <= val(image.planes[d][j]) ==> val(out.planes[c][i]) <= val(
            out.planes[d][j],
        ),
{
    let (scale, low) = choose|scale: T, low: T|
        evals(ops, whole(1).over(Formula::Given(factor)), scale) && evals(
            ops,
            Formula::Given(scale).apply(Unary::Asinh),
            low,
        ) && #[trigger] maps_image(ops, arcsinh_of(scale, low), image, out);
    let s = (1 as real) / val(factor);
    lemma_inverse_positive(val(factor));
    lemma_exact_whole(ops, val, 1);
    lemma_exact_binary(
        ops,
        val,
        Binary::Over,
        whole(1),
        Formula::Given(factor),
        1 as real,
        val(factor),
    );
    lemma_bent_value(ops, val, Unary::Asinh, g, Formula::Given(scale), s);
    assert(g(s) > g(0 as real));
    lemma_arcsinh_value(ops, val, g, scale, low, image, out, c, i);
    lemma_arcsinh_value(ops, val, g, scale, low, image, out, d, j);
    let (a, b) = (val(image.planes[c][i]), val(image.planes[d][j]));
    lemma_products_keep_order(a, b, s);
    let (x, y) = (product(a, s), product(b, s));
    lemma_quotients_keep_order(g(x), g(x), g(s));
    if a <= b {
        assert(!(g(y) < g(x)));
        lemma_quotients_keep_order(g(x), g(y), g(s));
    }
    assert(a <= 0 as real ==> !(g(0 as real) < g(x)));
    assert(a >= 1 as real ==> !(g(x) < g(s)));
}

/// A sample under the inverse hyperbolic sine in numbers.
proof fn lemma_arcsinh_value<T, A: Arithmetic<T>>(
    ops: &A,
    val: spec_fn(T) -> real,
    g: spec_fn(real) -> real,
    scale: T,
    low: T,
    image: Raster<T>,
    out: Raster<T>,
    c: int,
    i: int,
)
    requires
        is_exact(ops, val),
        bends(ops, val, Unary::Asinh, g),
        val(low) != 0 as real,
        maps_image(ops, arcsinh_of(scale, low), image, out),
        0 <= c < image.planes.len(),
        0 <= i < image.planes[c].len(),
    ensures
        val(out.planes[c][i]) == into_unit(
            g(product(val(image.planes[c][i]), val(scale))) / val(low),
        ),
{
    let v = image.planes[c][i];
    let f = Formula::Given(v).times(Formula::Given(scale));
    lemma_exact_product(ops, val, Formula::Given(v), Formula::Given(scale), val(v), val(scale));
    let x = product(val(v), val(scale));
    lemma_bent_value(ops, val, Unary::Asinh, g, f, x);
    let bent = f.apply(Unary::Asinh);
    lemma_exact_binary(ops, val, Binary::Over, bent, Formula::Given(low), g(x), val(low));
    lemma_exact_unit(ops, val, bent.over(Formula::Given(low)), g(x) / val(low));
    assert(maps(ops, arcsinh_of(scale, low), image.planes[c], out.planes[c]));
    assert(evals(ops, arcsinh_of(scale, low)(v), out.planes[c][i]));
}

/// The logarithmic stretch shows a sample as the logarithm of one and the sample
/// over a hundredth of the factor, as a share of that for white. Black stays black,
/// white stays white, and no sample passes another, whatever channels they are in.
pub proof fn lemma_log_keeps_order<T, A: Arithmetic<T>>(
    ops: &A,
    val: spec_fn(T) -> real,
    g: spec_fn(real) -> real,
    factor: T,
    image: Raster<T>,
    out: Raster<T>,
    hundredth: real,
    c: int,
    i: int,
    d: int,
    j: int,
)
    requires
        is_exact(ops, val),
        bends_upward(ops, val, Unary::Ln1p, g),
        val(factor) > 0 as real,
        (100 as real) * hundredth == val(factor),
        is_log_stretched(ops, factor, image, out),
        0 <= c < image.planes.len(),
        0 <= i < image.planes[c].len(),
        0 <= d < image.planes.len(),
        0 <= j < image.planes[d].len(),
        val(image.planes[c][i]) >= 0 as real,
        val(image.planes[d][j]) >= 0 as real,
    ensures
        val(out.planes[c][i]) == into_unit(
            g(val(image.planes[c][i]) / hundredth) / g((1 as real) / hundredth),
        ),
        val(image.planes[c][i]) == 0 as real ==> val(out.planes[c][i]) == 0 as real,
        val(image.planes[c][i]) >= 1 as real ==> val(out.planes[c][i]) == 1 as real,
        val(image.planes[c][i]) <= val(image.planes[d][j]) ==> val(out.planes[c][i]) <= val(
            out.planes[d][j],
        ),
{
    let (offset, low) = choose|offset: T, low: T|
        evals(ops, Formula::Given(factor).times(Formula::Ratio(1, 100)), offset) && evals(
            ops,
            whole(1).over(Formula::Given(offset)).apply(Unary::Ln1p),
            low,
        ) && #[trigger] maps_image(ops, log_of(offset, low), image, out);
    let q = (1u64 as int as real) / (100u64 as int as real);
    lemma_exact_ratio(ops, val, 1, 100);
    lemma_exact_product(ops, val, Formula::Given(factor), Formula::Ratio(1, 100), val(factor), q);
    lemma_hundredth(val(factor), q, hundredth);
    let s = (1 as real) / hundredth;
    lemma_inverse_positive(hundredth);
    lemma_exact_whole(ops, val, 1);
    let one = whole(1).over(Formula::Given(offset));
    lemma_exact_binary(
        ops,
        val,
        Binary::Over,
        whole(1),
        Formula::Given(offset),
        1 as real,
        hundredth,
    );
    lemma_bent_value(ops, val, Unary::Ln1p, g, one, s);
    assert(g(s) > g(0 as real));
    lemma_log_value(ops, val, g, offset, low, image, out, c, i);
    lemma_log_value(ops, val, g, offset, low, image, out, d, j);
    let (a, b) = (val(image.planes[c][i]), val(image.planes[d][j]));
    let (x, y) = (a / hundredth, b / hundredth);
    lemma_quotient_not_negative(a, hundredth);
    lemma_quotient_not_negative(b, hundredth);
    lemma_quotients_keep_order(a, a, hundredth);
    lemma_quotients_keep_order(g(x), g(x), g(s));
    if a <= b {
        lemma_quotients_keep_order(a, b, hundredth);
        assert(!(g(y) < g(x)));
        lemma_quotients_keep_order(g(x), g(y), g(s));
    }
    if a >= 1 as real {
        lemma_quotients_keep_order(1 as real, a, hundredth);
        assert(!(g(x) < g(s)));
    }
    assert(a == 0 as real ==> !(g(0 as real) < g(x)));
}

/// A hundredth of a positive number.
proof fn lemma_hundredth(f: real, q: real, h: real)
    requires
        f > 0 as real,
        q == (1u64 as int as real) / (100u64 as int as real),
        (100 as real) * h == f,
    ensures
        product(f, q) == h,
        h > 0 as real,
{
    reveal(product);
    assert((100 as real) * (f * q) == f) by (nonlinear_arith)
        requires
            q == (1 as real) / (100 as real),
    ;
}

/// A sample under the logarithm in numbers.
proof fn lemma_log_value<T, A: Arithmetic<T>>(
    ops: &A,
    val: spec_fn(T) -> real,
    g: spec_fn(real) -> real,
    offset: T,
    low: T,
    image: Raster<T>,
    out: Raster<T>,
    c: int,
    i: int,
)
    requires
        is_exact(ops, val),
        bends_upward(ops, val, Unary::Ln1p, g),
        val(offset) > 0 as real,
        val(low) != 0 as real,
        maps_image(ops, log_of(offset, low), image, out),
        0 <= c < image.planes.len(),
        0 <= i < image.planes[c].len(),
        val(image.planes[c][i]) >= 0 as real,
    ensures
        val(out.planes[c][i]) == into_unit(
            g(val(image.planes[c][i]) / val(offset)) / val(low),
        ),
{
    let v = image.planes[c][i];
    let (p, o) = (Formula::Given(v), Formula::Given(offset));
    let x = val(v) / val(offset);
    lemma_quotient_not_negative(val(v), val(offset));
    lemma_exact_binary(ops, val, Binary::Over, p, o, val(v), val(offset));
    lemma_bent_value(ops, val, Unary::Ln1p, g, p.over(o), x);
    let bent = p.over(o).apply(Unary::Ln1p);
    lemma_exact_binary(ops, val, Binary::Over, bent, Formula::Given(low), g(x), val(low));
    lemma_exact_unit(ops, val, bent.over(Formula::Given(low)), g(x) / val(low));
    assert(maps(ops, log_of(offset, low), image.planes[c], out.planes[c]));
    assert(evals(ops, log_of(offset, low)(v), out.planes[c][i]));
}

// ---------------------------------------------------------------------------
// Gamma
// ---------------------------------------------------------------------------

/// Powers and logarithms of positive numbers are those of numbers: the logarithm
/// vanishes at one alone, and the quotient of two logarithms is the power that leads
/// from one number to the other.
pub open spec fn has_powers<T, A: Arithmetic<T>>(
    ops: &A,
    val: spec_fn(T) -> real,
    pw: spec_fn(real, real) -> real,
    ln: spec_fn(real) -> real,
) -> bool {
    &&& forall|x: T, y: T, v: T| #[trigger]
        binary_answers(ops, Binary::Pow, x, y, v) && val(x) > 0 as real ==> val(v) == pw(
            val(x),
            val(y),
        )
    &&& forall|x: T, v: T| #[trigger]
        unary_answers(ops, Unary::Ln, x, v) && val(x) > 0 as real ==> val(v) == ln(val(x))
    &&& forall|a: real| a > 0 as real && a != 1 as real ==> #[trigger] ln(a) != 0 as real
    &&& forall|a: real, b: real|
        #![trigger ln(a), ln(b)]
        a > 0 as real && a != 1 as real && b > 0 as real ==> pw(a, ln(b) / ln(a)) == b
}

/// A power from a fifth to five.
pub open spec fn into_powers(a: real) -> real {
    if a < (1 as real) / (5 as real) {
        (1 as real) / (5 as real)
    } else if a > 5 as real {
        5 as real
    } else {
        a
    }
}

/// The logarithm of a positive sample in numbers.
proof fn lemma_logarithm_value<T, A: Arithmetic<T>>(
    ops: &A,
    val: spec_fn(T) -> real,
    pw: spec_fn(real, real) -> real,
    ln: spec_fn(real) -> real,
    s: T,
)
    requires
        has_powers(ops, val, pw, ln),
        val(s) > 0 as real,
    ensures
        denotes(ops, val, Formula::Given(s).apply(Unary::Ln), ln(val(s))),
{
    let f = Formula::Given(s);
    assert forall|v: T| #[trigger] evals(ops, f.apply(Unary::Ln), v) implies val(v) == ln(
        val(s),
    ) by {
        let u = choose|u: T| evals(ops, f, u) && #[trigger] unary_answers(ops, Unary::Ln, u, v);
    }
}

/// The gamma correction raises every positive sample to one power: the one that
/// leads from the median of the positive samples of all channels to the target,
/// from a fifth to five. Where that is the power itself, samples on the median land
/// on the target. Without a positive sample, or with the median on target, nothing
/// changes.
pub proof fn lemma_gamma_lands<T, A: Arithmetic<T>>(
    ops: &A,
    val: spec_fn(T) -> real,
    pw: spec_fn(real, real) -> real,
    ln: spec_fn(real) -> real,
    target: T,
    clipped: Raster<T>,
    flags: Seq<bool>,
    median: T,
    apart: bool,
    gamma: T,
    out: Raster<T>,
    c: int,
    i: int,
)
    requires
        is_exact(ops, val),
        keys_follow(ops, val),
        has_powers(ops, val, pw, ln),
        (0 as real) < val(target) && val(target) < 1 as real,
        clipped.wf(),
        is_gamma_corrected(ops, target, clipped, flags, median, apart, gamma, out),
        0 <= c < clipped.planes.len(),
        0 <= i < clipped.planes[c].len(),
    ensures
        lit_of(val, every_sample(clipped)).len() == 0 ==> out == clipped,
        lit_of(val, every_sample(clipped)).len() > 0 ==> is_middle(
            val,
            lit_of(val, every_sample(clipped)),
            val(median),
        ),
        lit_of(val, every_sample(clipped)).len() > 0 && val(median) == val(target) ==> out
            == clipped,
        lit_of(val, every_sample(clipped)).len() > 0 && val(median) > 0 as real && val(median)
            != 1 as real && val(median) != val(target) && val(clipped.planes[c][i]) > 0 as real
            ==> val(out.planes[c][i]) == into_unit(
            pw(val(clipped.planes[c][i]), into_powers(ln(val(target)) / ln(val(median)))),
        ),
        lit_of(val, every_sample(clipped)).len() > 0 && val(median) > 0 as real && val(median)
            != 1 as real && val(clipped.planes[c][i]) == val(median) && into_powers(
            ln(val(target)) / ln(val(median)),
        ) == ln(val(target)) / ln(val(median)) ==> val(out.planes[c][i]) == val(target),
{
    let all = all_samples(clipped);
    lemma_every_sample(clipped);
    assert(all.take(all.len() as int) =~= all);
    lemma_lit_is_picked(ops, val, all, flags, all.len() as int);
    let lit = lit_of(val, all);
    if lit.len() > 0 {
        lemma_median_is_middle(ops, val, lit, median);
        lemma_is_positive(ops, val, median);
        let positive = choose|positive: bool| #[trigger]
            decides(ops, Test::Less, whole(0), Formula::Given(median), positive) && if positive {
                decides(ops, Test::Equal, Formula::Given(median), Formula::Given(target), !apart)
            } else {
                !apart
            };
        assert(positive == (val(median) > 0 as real));
        if positive {
            let met = !apart;
            let (p, q) = choose|p: T, q: T|
                evals(ops, Formula::Given(median), p) && evals(ops, Formula::Given(target), q)
                    && #[trigger] test_answers(ops, Test::Equal, p, q, met);
            assert(apart == (val(median) != val(target)));
        }
        if apart && val(median) != 1 as real {
            lemma_gamma_value(ops, val, pw, ln, target, median, gamma);
            let v = clipped.planes[c][i];
            if val(v) > 0 as real {
                let (f, g) = (Formula::Given(v), Formula::Given(gamma));
                let power = f.with(Binary::Pow, g);
                assert forall|r: T| #[trigger] evals(ops, power, r) implies val(r) == pw(
                    val(v),
                    val(gamma),
                ) by {
                    let (x, y) = choose|x: T, y: T|
                        evals(ops, f, x) && evals(ops, g, y) && #[trigger] binary_answers(
                            ops,
                            Binary::Pow,
                            x,
                            y,
                            r,
                        );
                }
                lemma_exact_unit(ops, val, power, pw(val(v), val(gamma)));
                assert(maps(ops, gamma_of(gamma), clipped.planes[c], out.planes[c]));
                assert(evals(ops, gamma_of(gamma)(v), out.planes[c][i]));
            }
        }
    }
}

/// The power of a gamma correction in numbers.
proof fn lemma_gamma_value<T, A: Arithmetic<T>>(
    ops: &A,
    val: spec_fn(T) -> real,
    pw: spec_fn(real, real) -> real,
    ln: spec_fn(real) -> real,
    target: T,
    median: T,
    gamma: T,
)
    requires
        is_exact(ops, val),
        has_powers(ops, val, pw, ln),
        val(target) > 0 as real,
        val(median) > 0 as real,
        val(median) != 1 as real,
        evals(ops, gamma_for(median, target), gamma),
    ensures
        val(gamma) == into_powers(ln(val(target)) / ln(val(median))),
{
    lemma_logarithm_value(ops, val, pw, ln, target);
    lemma_logarithm_value(ops, val, pw, ln, median);
    let (f, g) = (
        Formula::Given(target).apply(Unary::Ln),
        Formula::Given(median).apply(Unary::Ln),
    );
    assert(ln(val(median)) != 0 as real);
    lemma_exact_binary(ops, val, Binary::Over, f, g, ln(val(target)), ln(val(median)));
    lemma_exact_ratio(ops, val, 1, 5);
    lemma_exact_whole(ops, val, 5);
    let (p, l, h) = choose|p: T, l: T, h: T|
        evals(ops, f.over(g), p) && evals(ops, Formula::Ratio(1, 5), l) && evals(ops, whole(5), h)
            && #[trigger] clamp_answers(ops, p, l, h, gamma);
    lemma_share_of(1 as real, 5 as real);
}

// ---------------------------------------------------------------------------
// Bytes
// ---------------------------------------------------------------------------

/// A byte is the whole part of the number that it is taken from.
pub open spec fn cuts_bytes<T, A: Arithmetic<T>>(ops: &A, val: spec_fn(T) -> real) -> bool {
    forall|x: T, b: u8| #[trigger]
        byte_answers(ops, x, b) && 0 as real <= val(x) <= 255 as real ==> is_whole_part(
            val(x),
            b as int,
        )
}

/// The bytes of an image hold its pixels one after the other, and of each pixel one
/// byte for every channel, in the order of the channels: the whole part of 255
/// times the sample, black below zero and white from one on.
pub proof fn lemma_bytes_show_samples<T, A: Arithmetic<T>>(
    ops: &A,
    val: spec_fn(T) -> real,
    image: Raster<T>,
    bytes: Seq<u8>,
    c: int,
    i: int,
)
    requires
        is_exact(ops, val),
        cuts_bytes(ops, val),
        image.wf(),
        are_bytes(ops, image, bytes),
        0 <= c < image.planes.len(),
        0 <= i < image.width * image.height,
    ensures
        0 <= i * image.planes.len() + c < bytes.len(),
        val(image.planes[c][i]) < 0 as real ==> bytes[i * image.planes.len() + c] == 0,
        val(image.planes[c][i]) >= 1 as real ==> bytes[i * image.planes.len() + c] == 255,
        0 as real <= val(image.planes[c][i]) <= 1 as real ==> is_whole_part(
            (255 as real) * val(image.planes[c][i]),
            bytes[i * image.planes.len() + c] as int,
        ),
{
    let n = image.planes.len() as int;
    let total = (image.width * image.height) as int;
    let j = i * n + c;
    assert(image.samples() == n * total);
    assert(j < n * total && j % n == c && j / n == i && 0 <= j) by (nonlinear_arith)
        requires
            j == i * n + c,
            0 <= c < n,
            0 <= i < total,
    ;
    let v = image.planes[c][i];
    let f = Formula::Given(v).times(whole(255));
    assert(bytes_of(ops, brightness(image.planes[j % n][j / n]), bytes[j]));
    let x = choose|x: T| evals(ops, brightness(v), x) && #[trigger] byte_answers(ops, x, bytes[j]);
    let (p, l, h) = choose|p: T, l: T, h: T|
        evals(ops, f, p) && evals(ops, whole(0), l) && evals(ops, whole(255), h)
            && #[trigger] clamp_answers(ops, p, l, h, x);
    lemma_exact_whole(ops, val, 0);
    lemma_exact_whole(ops, val, 255);
    lemma_exact_binary(
        ops,
        val,
        Binary::Times,
        Formula::Given(v),
        whole(255),
        val(v),
        255u64 as int as real,
    );
    assert(is_whole_part(val(x), bytes[j] as int));
}

} // verus!
