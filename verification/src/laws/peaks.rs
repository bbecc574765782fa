//! The peaks of a test frame's sky gradient and nebulosity where the arithmetic
//! is exact.

use super::exact::{
    denotes, is_exact, lemma_exact_binary, lemma_exact_product, lemma_exact_quotient,
    lemma_exact_ratio, lemma_exact_whole,
};
use super::reals::{
    lemma_product, lemma_product_commutes, lemma_product_distributes, lemma_product_not_negative,
    lemma_product_of_unit, lemma_quotient_not_negative, lemma_quotient_product, lemma_share_of,
    product,
};
use crate::arith::{
    Arithmetic, Binary, Formula, Test, Unary, binary_answers, decides, evals, test_answers, whole,
};
use crate::gradient::last_pixel;
use crate::plane::{largest_of, lemma_pixel, lemma_place, maps};
use crate::synthetic::{
    Blob, are_blobs, is_nebula, is_nebula_by, is_sky_gradient, is_slope, multiplied, summit_of,
    tilt, tilted,
};
use vstd::prelude::*;

verus! {

/// Minus infinity stands for a number that is not positive.
pub open spec fn starts_low<T, A: Arithmetic<T>>(ops: &A, val: spec_fn(T) -> real) -> bool {
    forall|v: T| #[trigger]
        evals(ops, Formula::Infinity.apply(Unary::Neg), v) ==> val(v) <= 0 as real
}

/// `peak` is the largest of the numbers that the samples stand for.
pub open spec fn is_peak_of<T>(val: spec_fn(T) -> real, s: Seq<T>, peak: real) -> bool {
    &&& forall|i: int| 0 <= i < s.len() ==> val(#[trigger] s[i]) <= peak
    &&& exists|i: int| 0 <= i < s.len() && val(#[trigger] s[i]) == peak
}

/// A part of the way along a dimension.
proof fn lemma_part_of_way<T, A: Arithmetic<T>>(
    ops: &A,
    val: spec_fn(T) -> real,
    k: int,
    n: int,
) -> (r: real)
    requires
        is_exact(ops, val),
        0 <= k < n <= usize::MAX,
    ensures
        r == (k as real) / ((last_pixel(n) as int) as real),
        0 as real <= r <= 1 as real,
        denotes(
            ops,
            val,
            Formula::Count(k as usize).over(Formula::Count(last_pixel(n))),
            r,
        ),
{
    let (a, b) = (k as real, (last_pixel(n) as int) as real);
    let (f, g) = (Formula::<T>::Count(k as usize), Formula::<T>::Count(last_pixel(n)));
    assert(denotes(ops, val, f, a));
    assert(denotes(ops, val, g, b));
    lemma_exact_binary(ops, val, Binary::Over, f, g, a, b);
    lemma_share_of(a, b);
    a / b
}

/// The tilt of the sky at shares of the way across and down.
pub open spec fn tilt_at_shares(x: real, y: real) -> real {
    product((1 as real) / (2 as real), x) + product((3 as real) / (10 as real), y) + product(
        product((1 as real) / (5 as real), x),
        y,
    )
}

/// The tilt of the sky in numbers.
proof fn lemma_tilt_value<T, A: Arithmetic<T>>(
    ops: &A,
    val: spec_fn(T) -> real,
    w: int,
    h: int,
    i: int,
    v: T,
)
    requires
        is_exact(ops, val),
        0 <= w <= usize::MAX,
        0 <= h <= usize::MAX,
        0 <= i < w * h,
        evals(ops, tilt(w, h, i), v),
    ensures
        val(v) >= 0 as real,
        val(v) == tilt_at_shares(
            ((i % w) as real) / ((last_pixel(w) as int) as real),
            ((i / w) as real) / ((last_pixel(h) as int) as real),
        ),
        val(v) <= 1 as real,
{
    lemma_place(i, w, h);
    let x = lemma_part_of_way(ops, val, i % w, w);
    let y = lemma_part_of_way(ops, val, i / w, h);
    let fx = Formula::<T>::Count((i % w) as usize).over(Formula::Count(last_pixel(w)));
    let fy = Formula::<T>::Count((i / w) as usize).over(Formula::Count(last_pixel(h)));
    let (half, third, fifth) = (
        Formula::<T>::Ratio(1, 2),
        Formula::<T>::Ratio(3, 10),
        Formula::<T>::Ratio(1, 5),
    );
    let a = (1u64 as int as real) / (2u64 as int as real);
    let b = (3u64 as int as real) / (10u64 as int as real);
    let c = (1u64 as int as real) / (5u64 as int as real);
    lemma_exact_ratio(ops, val, 1, 2);
    lemma_exact_ratio(ops, val, 3, 10);
    lemma_exact_ratio(ops, val, 1, 5);
    lemma_quotient_not_negative(1u64 as int as real, 2u64 as int as real);
    lemma_quotient_not_negative(3u64 as int as real, 10u64 as int as real);
    lemma_quotient_not_negative(1u64 as int as real, 5u64 as int as real);
    lemma_exact_product(ops, val, half, fx, a, x);
    lemma_exact_product(ops, val, third, fy, b, y);
    lemma_exact_product(ops, val, fifth, fx, c, x);
    lemma_exact_product(ops, val, fifth.times(fx), fy, product(c, x), y);
    lemma_product_not_negative(a, x);
    lemma_product_not_negative(b, y);
    lemma_product_not_negative(c, x);
    lemma_product_not_negative(product(c, x), y);
    let linear = half.times(fx).plus(third.times(fy));
    lemma_exact_binary(
        ops,
        val,
        Binary::Plus,
        half.times(fx),
        third.times(fy),
        product(a, x),
        product(b, y),
    );
    lemma_exact_binary(
        ops,
        val,
        Binary::Plus,
        linear,
        fifth.times(fx).times(fy),
        product(a, x) + product(b, y),
        product(product(c, x), y),
    );
    lemma_share_of_amplitude(a, x);
    lemma_share_of_amplitude(b, y);
    lemma_share_of_amplitude(c, x);
    lemma_share_of_amplitude(product(c, x), y);
}

/// The summit of samples that are not negative is the largest of them.
proof fn lemma_summit<T, A: Arithmetic<T>>(
    ops: &A,
    val: spec_fn(T) -> real,
    s: Seq<T>,
    n: int,
    v: T,
)
    requires
        is_exact(ops, val),
        starts_low(ops, val),
        n <= s.len(),
        forall|i: int| 0 <= i < s.len() ==> val(#[trigger] s[i]) >= 0 as real,
        evals(ops, summit_of(s, n), v),
    ensures
        n <= 0 ==> val(v) <= 0 as real,
        forall|i: int| 0 <= i < n ==> val(#[trigger] s[i]) <= val(v),
        n > 0 ==> exists|i: int| 0 <= i < n && val(#[trigger] s[i]) == val(v),
    decreases n,
{
    if n > 0 {
        let (x, y) = choose|x: T, y: T|
            evals(ops, summit_of(s, n - 1), x) && evals(ops, Formula::Given(s[n - 1]), y)
                && #[trigger] binary_answers(ops, Binary::Most, x, y, v);
        lemma_summit(ops, val, s, n - 1, x);
        assert(val(s[n - 1]) >= 0 as real);
        if n > 1 {
            let i = choose|i: int| 0 <= i < n - 1 && val(#[trigger] s[i]) == val(x);
            if val(x) >= val(y) {
                assert(val(s[i]) == val(v));
            }
        }
        if val(x) < val(y) || n == 1 {
            assert(val(s[n - 1]) == val(v));
        }
    }
}

/// A share of a number that is not negative.
proof fn lemma_share_of_amplitude(a: real, q: real)
    requires
        a >= 0 as real,
        0 as real <= q <= 1 as real,
    ensures
        0 as real <= product(a, q) <= a,
{
    lemma_product_not_negative(a, q);
    lemma_product_not_negative(a, (1 as real) - q);
    lemma_product_distributes(a, 1 as real, q);
    lemma_product_of_unit(a);
}

/// The sky gradient lies between zero and its amplitude, and its peak is the
/// amplitude.
pub proof fn lemma_sky_gradient_peaks<T, A: Arithmetic<T>>(
    ops: &A,
    val: spec_fn(T) -> real,
    w: int,
    h: int,
    amplitude: T,
    out: Seq<T>,
)
    requires
        is_exact(ops, val),
        starts_low(ops, val),
        1 <= w <= usize::MAX,
        1 <= h <= usize::MAX,
        val(amplitude) >= 0 as real,
        is_sky_gradient(ops, w, h, amplitude, out),
    ensures
        out.len() == w * h,
        forall|i: int| 0 <= i < out.len() ==> val(#[trigger] out[i]) >= 0 as real,
        is_peak_of(val, out, val(amplitude)),
{
    let (raw, summit, steep) = choose|raw: Seq<T>, summit: T, steep: bool| #[trigger]
        is_slope(ops, w, h, raw, summit, steep) && if steep {
            maps(ops, tilted(amplitude, summit), raw, out)
        } else {
            out == Seq::new(raw.len(), |i: int| amplitude)
        };
    assert(w * h >= 1) by (nonlinear_arith)
        requires
            w >= 1,
            h >= 1,
    ;
    if !steep {
        assert(val(out[0]) == val(amplitude));
    } else {
        assert forall|i: int| 0 <= i < raw.len() implies val(#[trigger] raw[i]) >= 0 as real by {
            lemma_tilt_value(ops, val, w, h, i, raw[i]);
        }
        lemma_summit(ops, val, raw, raw.len() as int, summit);
        lemma_is_positive(ops, val, summit);
        assert forall|i: int| 0 <= i < out.len() implies val(#[trigger] out[i]) == product(
            val(amplitude),
            val(raw[i]) / val(summit),
        ) by {
            let (f, g) = (Formula::Given(raw[i]), Formula::Given(summit));
            lemma_exact_binary(ops, val, Binary::Over, f, g, val(raw[i]), val(summit));
            lemma_exact_product(
                ops,
                val,
                Formula::Given(amplitude),
                f.over(g),
                val(amplitude),
                val(raw[i]) / val(summit),
            );
            assert(evals(ops, tilted(amplitude, summit)(raw[i]), out[i]));
        }
        assert forall|i: int| 0 <= i < out.len() implies 0 as real <= val(#[trigger] out[i]) <= val(
            amplitude,
        ) by {
            assert(val(raw[i]) >= 0 as real && val(raw[i]) <= val(summit));
            lemma_share_of(val(raw[i]), val(summit));
            lemma_share_of_amplitude(val(amplitude), val(raw[i]) / val(summit));
        }
        let top = choose|i: int| 0 <= i < raw.len() && val(#[trigger] raw[i]) == val(summit);
        lemma_quotient_product(val(summit), val(summit));
        lemma_product_of_unit(val(amplitude));
        assert(val(out[top]) == val(amplitude));
    }
}

/// The sky gradient of a frame of more than one row and column rises from zero at
/// the top left to half of its amplitude at the top right, three tenths of it at
/// the bottom left and all of it at the bottom right: half of it with the share of
/// the way across, three tenths with the share of the way down, and a fifth with
/// both.
pub proof fn lemma_sky_gradient_rises<T, A: Arithmetic<T>>(
    ops: &A,
    val: spec_fn(T) -> real,
    w: int,
    h: int,
    amplitude: T,
    out: Seq<T>,
    x: int,
    y: int,
)
    requires
        is_exact(ops, val),
        starts_low(ops, val),
        2 <= w <= usize::MAX,
        2 <= h <= usize::MAX,
        is_sky_gradient(ops, w, h, amplitude, out),
        0 <= x < w,
        0 <= y < h,
    ensures
        val(out[y * w + x]) == product(
            val(amplitude),
            tilt_at_shares((x as real) / ((w - 1) as real), (y as real) / ((h - 1) as real)),
        ),
        x == 0 && y == 0 ==> val(out[y * w + x]) == 0 as real,
        x == w - 1 && y == 0 ==> (2 as real) * val(out[y * w + x]) == val(amplitude),
        x == 0 && y == h - 1 ==> (10 as real) * val(out[y * w + x]) == (3 as real) * val(
            amplitude,
        ),
        x == w - 1 && y == h - 1 ==> val(out[y * w + x]) == val(amplitude),
{
    let (raw, summit, steep) = choose|raw: Seq<T>, summit: T, steep: bool| #[trigger]
        is_slope(ops, w, h, raw, summit, steep) && if steep {
            maps(ops, tilted(amplitude, summit), raw, out)
        } else {
            out == Seq::new(raw.len(), |i: int| amplitude)
        };
    assert forall|i: int| 0 <= i < raw.len() implies 0 as real <= val(#[trigger] raw[i])
        <= 1 as real by {
        lemma_tilt_value(ops, val, w, h, i, raw[i]);
    }
    lemma_summit(ops, val, raw, raw.len() as int, summit);
    lemma_is_positive(ops, val, summit);
    lemma_pixel(w - 1, h - 1, w, h);
    lemma_pixel(x, y, w, h);
    let (last, i) = ((h - 1) * w + (w - 1), y * w + x);
    lemma_tilt_value(ops, val, w, h, last, raw[last]);
    lemma_tilt_value(ops, val, w, h, i, raw[i]);
    lemma_quotient_product(0 as real, (w - 1) as real);
    lemma_quotient_product(0 as real, (h - 1) as real);
    lemma_no_part((w - 1) as real);
    lemma_no_part((h - 1) as real);
    lemma_tilt_at_corners(val(amplitude));
    assert(val(summit) == 1 as real);
    let (f, g) = (Formula::Given(raw[i]), Formula::Given(summit));
    lemma_exact_binary(ops, val, Binary::Over, f, g, val(raw[i]), val(summit));
    lemma_quotient_product(val(raw[i]), 1 as real);
    lemma_product_of_unit(val(raw[i]) / (1 as real));
    lemma_exact_product(
        ops,
        val,
        Formula::Given(amplitude),
        f.over(g),
        val(amplitude),
        val(raw[i]) / val(summit),
    );
    assert(evals(ops, tilted(amplitude, summit)(raw[i]), out[i]));
}

/// No part of the way.
proof fn lemma_no_part(d: real)
    by (nonlinear_arith)
    requires
        d > 0 as real,
    ensures
        (0 as real) / d == 0 as real,
{
}

/// The tilt in the corners of the frame.
proof fn lemma_tilt_at_corners(a: real)
    ensures
        tilt_at_shares(1 as real, 1 as real) == 1 as real,
        product(a, tilt_at_shares(0 as real, 0 as real)) == 0 as real,
        (2 as real) * product(a, tilt_at_shares(1 as real, 0 as real)) == a,
        (10 as real) * product(a, tilt_at_shares(0 as real, 1 as real)) == (3 as real) * a,
        product(a, tilt_at_shares(1 as real, 1 as real)) == a,
{
    let (p, q, r) = (
        (1 as real) / (2 as real),
        (3 as real) / (10 as real),
        (1 as real) / (5 as real),
    );
    lemma_product_of_unit(p);
    lemma_product_of_unit(q);
    lemma_product_of_unit(r);
    lemma_product_of_unit(0 as real);
    lemma_product_of_unit(a);
    lemma_product(a, p);
    lemma_product(a, q);
    assert((2 as real) * (a * p) == a) by (nonlinear_arith)
        requires
            p == (1 as real) / (2 as real),
    ;
    assert((10 as real) * (a * q) == (3 as real) * a) by (nonlinear_arith)
        requires
            q == (3 as real) / (10 as real),
    ;
}

/// A number above the arithmetic's zero is positive.
pub proof fn lemma_is_positive<T, A: Arithmetic<T>>(ops: &A, val: spec_fn(T) -> real, v: T)
    requires
        is_exact(ops, val),
    ensures
        decides(ops, Test::Less, whole(0), Formula::Given(v), true) ==> val(v) > 0 as real,
        decides(ops, Test::Less, whole(0), Formula::Given(v), false) ==> val(v) <= 0 as real,
{
    lemma_exact_whole(ops, val, 0);
    if decides(ops, Test::Less, whole(0), Formula::Given(v), true) {
        let (x, y) = choose|x: T, y: T|
            evals(ops, whole(0), x) && evals(ops, Formula::Given(v), y) && #[trigger] test_answers(
                ops,
                Test::Less,
                x,
                y,
                true,
            );
    }
    if decides(ops, Test::Less, whole(0), Formula::Given(v), false) {
        let (x, y) = choose|x: T, y: T|
            evals(ops, whole(0), x) && evals(ops, Formula::Given(v), y) && #[trigger] test_answers(
                ops,
                Test::Less,
                x,
                y,
                false,
            );
    }
}

/// The largest of the samples, or zero where that is more.
proof fn lemma_largest<T, A: Arithmetic<T>>(
    ops: &A,
    val: spec_fn(T) -> real,
    s: Seq<T>,
    n: int,
    v: T,
)
    requires
        is_exact(ops, val),
        n <= s.len(),
        evals(ops, largest_of(s, n), v),
    ensures
        val(v) >= 0 as real,
        forall|i: int| 0 <= i < n ==> val(#[trigger] s[i]) <= val(v),
        val(v) > 0 as real ==> exists|i: int| 0 <= i < n && val(#[trigger] s[i]) == val(v),
    decreases n,
{
    if n <= 0 {
        lemma_exact_whole(ops, val, 0);
    } else {
        let (x, y) = choose|x: T, y: T|
            evals(ops, largest_of(s, n - 1), x) && evals(ops, Formula::Given(s[n - 1]), y)
                && #[trigger] binary_answers(ops, Binary::Most, x, y, v);
        lemma_largest(ops, val, s, n - 1, x);
        if val(x) < val(y) {
            assert(val(s[n - 1]) == val(v));
        } else if val(v) > 0 as real {
            let i = choose|i: int| 0 <= i < n - 1 && val(#[trigger] s[i]) == val(x);
            assert(val(s[i]) == val(v));
        }
    }
}

/// A multiple of numbers up to `p` that brings `p` to `a`.
proof fn lemma_scaled_to(v: real, p: real, a: real)
    requires
        v <= p,
        p > 0 as real,
        a >= 0 as real,
    ensures
        product(v, a / p) <= a,
        v == p ==> product(v, a / p) == a,
{
    lemma_quotient_product(a, p);
    lemma_product_commutes(a / p, p);
    lemma_quotient_not_negative(a, p);
    lemma_product_not_negative(p - v, a / p);
    lemma_product_distributes(p, v, a / p);
}

/// Nebulosity with a positive peak is brought to its amplitude: no sample is
/// above it, and one reaches it.
pub proof fn lemma_lit_nebula_peaks<T, A: Arithmetic<T>>(
    ops: &A,
    val: spec_fn(T) -> real,
    w: int,
    h: int,
    amplitude: T,
    blobs: Seq<Blob<T>>,
    raw: Seq<T>,
    peak: T,
    lit: bool,
    scale: T,
    out: Seq<T>,
)
    requires
        is_exact(ops, val),
        val(amplitude) >= 0 as real,
        val(peak) > 0 as real,
        is_nebula_by(ops, w, h, amplitude, blobs, raw, peak, lit, scale, out),
    ensures
        is_peak_of(val, out, val(amplitude)),
{
    lemma_largest(ops, val, raw, raw.len() as int, peak);
    lemma_is_positive(ops, val, peak);
    lemma_exact_quotient(
        ops,
        val,
        Formula::Given(amplitude),
        Formula::Given(peak),
        val(amplitude),
        val(peak),
        scale,
    );
    assert forall|i: int| 0 <= i < out.len() implies val(#[trigger] out[i]) == product(
        val(raw[i]),
        val(amplitude) / val(peak),
    ) by {
        lemma_exact_product(
            ops,
            val,
            Formula::Given(raw[i]),
            Formula::Given(scale),
            val(raw[i]),
            val(scale),
        );
        assert(evals(ops, multiplied(scale)(raw[i]), out[i]));
    }
    assert forall|i: int| 0 <= i < out.len() implies val(#[trigger] out[i]) <= val(amplitude) by {
        assert(val(raw[i]) <= val(peak));
        lemma_scaled_to(val(raw[i]), val(peak), val(amplitude));
    }
    let top = choose|i: int| 0 <= i < raw.len() && val(#[trigger] raw[i]) == val(peak);
    lemma_scaled_to(val(raw[top]), val(peak), val(amplitude));
    assert(val(out[top]) == val(amplitude));
}

/// The nebulosity peaks at its amplitude where any of it is positive.
pub proof fn lemma_nebula_peaks<T, A: Arithmetic<T>>(
    ops: &A,
    val: spec_fn(T) -> real,
    w: usize,
    h: usize,
    amplitude: T,
    seed: u64,
    start: nat,
    out: Seq<T>,
)
    requires
        is_exact(ops, val),
        val(amplitude) >= 0 as real,
        is_nebula(ops, w, h, amplitude, seed, start, out),
        exists|i: int| 0 <= i < out.len() && val(#[trigger] out[i]) > 0 as real,
    ensures
        is_peak_of(val, out, val(amplitude)),
{
    let (blobs, raw, peak, lit, scale) = choose|
        blobs: Seq<Blob<T>>,
        raw: Seq<T>,
        peak: T,
        lit: bool,
        scale: T,
    |
        are_blobs(ops, w, h, seed, start, blobs) && #[trigger] is_nebula_by(
            ops,
            w as int,
            h as int,
            amplitude,
            blobs,
            raw,
            peak,
            lit,
            scale,
            out,
        );
    lemma_largest(ops, val, raw, raw.len() as int, peak);
    lemma_is_positive(ops, val, peak);
    lemma_lit_nebula_peaks(
        ops,
        val,
        w as int,
        h as int,
        amplitude,
        blobs,
        raw,
        peak,
        lit,
        scale,
        out,
    );
}

} // verus!
