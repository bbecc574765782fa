//! What saturation does where the arithmetic is exact and nothing is clamped.

use super::curve::lemma_quotient;
use super::exact::{is_exact, lemma_exact_binary, lemma_exact_unit, lemma_exact_whole};
use crate::arith::{Arithmetic, Binary, Formula, Test, decides, evals, test_answers, whole};
use crate::frame::Raster;
use crate::stretch::{
    are_centers, chroma_center, is_saturated, is_saturated_around, is_saturated_plane, saturated,
};
use vstd::prelude::*;

verus! {

/// The sum of the three channels of pixel `i`.
pub open spec fn pixel_sum<T>(val: spec_fn(T) -> real, image: Raster<T>, i: int) -> real {
    val(image.planes[0][i]) + val(image.planes[1][i]) + val(image.planes[2][i])
}

/// The luminance of pixel `i`.
pub open spec fn center<T>(val: spec_fn(T) -> real, image: Raster<T>, i: int) -> real {
    pixel_sum(val, image, i) / 3 as real
}

/// A sample whose distance from the luminance `l` is multiplied by `f`.
pub open spec fn moved(l: real, f: real, v: real) -> real {
    l + f * (v - l)
}

/// No sample leaves the unit range when the chroma is multiplied by `f`.
pub open spec fn stays_inside<T>(val: spec_fn(T) -> real, f: real, image: Raster<T>) -> bool {
    forall|c: int, i: int|
        0 <= c < 3 && 0 <= i < image.planes[c].len() ==> 0 as real <= moved(
            center(val, image, i),
            f,
            val(#[trigger] image.planes[c][i]),
        ) <= 1 as real
}

/// The factor one leaves a sample where it is.
proof fn lemma_moved_by_one(l: real, v: real)
    by (nonlinear_arith)
    ensures
        moved(l, 1 as real, v) == v,
{
}

/// Two factors, one after the other.
#[verifier::spinoff_prover]
proof fn lemma_moved_twice(l: real, f: real, g: real, v: real)
    ensures
        moved(l, g, moved(l, f, v)) == moved(l, f * g, v),
{
    assert(g * (l + f * (v - l) - l) == (f * g) * (v - l)) by (nonlinear_arith);
}

/// Three samples keep their sum.
#[verifier::spinoff_prover]
proof fn lemma_moved_sum(l: real, f: real, r: real, g: real, b: real)
    requires
        (3 as real) * l == r + g + b,
    ensures
        moved(l, f, r) + moved(l, f, g) + moved(l, f, b) == r + g + b,
{
    assert(f * (r - l) + f * (g - l) + f * (b - l) == f * (r + g + b - (3 as real) * l))
        by (nonlinear_arith);
    assert(f * (0 as real) == 0 as real) by (nonlinear_arith);
}

/// Saturation moves every sample of a color image by the factor.
#[verifier::spinoff_prover]
pub proof fn lemma_saturation_is_exact<T, A: Arithmetic<T>>(
    ops: &A,
    val: spec_fn(T) -> real,
    factor: T,
    image: Raster<T>,
    out: Raster<T>,
)
    requires
        is_exact(ops, val),
        image.wf(),
        image.planes.len() == 3,
        stays_inside(val, val(factor), image),
        is_saturated(ops, factor, image, out),
    ensures
        out.wf(),
        out.same_shape(image),
        forall|c: int, i: int|
            0 <= c < 3 && 0 <= i < out.planes[c].len() ==> val(#[trigger] out.planes[c][i])
                == moved(center(val, image, i), val(factor), val(image.planes[c][i])),
{
    let off = choose|off: bool| #[trigger]
        decides(ops, Test::Equal, Formula::Given(factor), whole(1), off) && if off {
            out == image
        } else {
            exists|lum: Seq<T>| #[trigger]
                are_centers(ops, image, lum) && is_saturated_around(
                    ops,
                    lum,
                    factor,
                    image,
                    out,
                )
        };
    lemma_exact_whole(ops, val, 1);
    lemma_exact_whole(ops, val, 3);
    if off {
        let (x, y) = choose|x: T, y: T|
            evals(ops, Formula::Given(factor), x) && evals(ops, whole(1), y)
                && #[trigger] test_answers(ops, Test::Equal, x, y, off);
        assert(val(factor) == 1 as real);
        assert forall|c: int, i: int|
            0 <= c < 3 && 0 <= i < out.planes[c].len() implies val(#[trigger] out.planes[c][i])
            == moved(center(val, image, i), val(factor), val(image.planes[c][i])) by {
            lemma_moved_by_one(center(val, image, i), val(image.planes[c][i]));
        }
    } else {
        let lum = choose|lum: Seq<T>| #[trigger]
            are_centers(ops, image, lum) && is_saturated_around(ops, lum, factor, image, out);
        assert forall|c: int| 0 <= c < out.planes.len() implies (#[trigger] out.planes[c]).len()
            == out.width * out.height by {
            assert(is_saturated_plane(ops, lum, factor, image.planes[c], out.planes[c]));
            assert(image.planes[c].len() == image.width * image.height);
        }
        assert forall|c: int, i: int|
            0 <= c < 3 && 0 <= i < out.planes[c].len() implies val(#[trigger] out.planes[c][i])
            == moved(center(val, image, i), val(factor), val(image.planes[c][i])) by {
            assert(is_saturated_plane(ops, lum, factor, image.planes[c], out.planes[c]));
            assert(image.planes[0].len() == image.width * image.height);
            assert(image.planes[c].len() == image.width * image.height);
            let (r, g, b) = (image.planes[0][i], image.planes[1][i], image.planes[2][i]);
            let v = image.planes[c][i];
            let l = center(val, image, i);
            let (p, q, s) = (Formula::Given(r), Formula::Given(g), Formula::Given(b));
            lemma_exact_binary(ops, val, Binary::Plus, p, q, val(r), val(g));
            lemma_exact_binary(ops, val, Binary::Plus, p.plus(q), s, val(r) + val(g), val(b));
            lemma_exact_binary(
                ops,
                val,
                Binary::Over,
                p.plus(q).plus(s),
                whole(3),
                val(r) + val(g) + val(b),
                3 as real,
            );
            assert(evals(ops, chroma_center(r, g, b), lum[i]));
            assert(val(lum[i]) == l);
            let (x, y, f) = (Formula::Given(lum[i]), Formula::Given(v), Formula::Given(factor));
            lemma_exact_binary(ops, val, Binary::Minus, y, x, val(v), l);
            lemma_exact_binary(ops, val, Binary::Times, f, y.minus(x), val(factor), val(v) - l);
            lemma_exact_binary(
                ops,
                val,
                Binary::Plus,
                x,
                f.times(y.minus(x)),
                l,
                val(factor) * (val(v) - l),
            );
            lemma_exact_unit(
                ops,
                val,
                x.plus(f.times(y.minus(x))),
                moved(l, val(factor), val(v)),
            );
            assert(evals(ops, saturated(lum[i], factor, v), out.planes[c][i]));
        }
    }
}

/// Saturation keeps the sum of a pixel's channels where nothing is clamped.
#[verifier::spinoff_prover]
pub proof fn lemma_saturation_keeps_sums<T, A: Arithmetic<T>>(
    ops: &A,
    val: spec_fn(T) -> real,
    factor: T,
    image: Raster<T>,
    out: Raster<T>,
    i: int,
)
    requires
        is_exact(ops, val),
        image.wf(),
        image.planes.len() == 3,
        stays_inside(val, val(factor), image),
        is_saturated(ops, factor, image, out),
        0 <= i < image.width * image.height,
    ensures
        pixel_sum(val, out, i) == pixel_sum(val, image, i),
{
    lemma_saturation_is_exact(ops, val, factor, image, out);
    assert(out.planes[0].len() == out.width * out.height);
    assert(out.planes[1].len() == out.width * out.height);
    assert(out.planes[2].len() == out.width * out.height);
    let l = center(val, image, i);
    lemma_quotient(pixel_sum(val, image, i), 3 as real);
    assert((3 as real) * l == l * (3 as real)) by (nonlinear_arith);
    lemma_moved_sum(
        l,
        val(factor),
        val(image.planes[0][i]),
        val(image.planes[1][i]),
        val(image.planes[2][i]),
    );
    assert(val(out.planes[0][i]) == moved(l, val(factor), val(image.planes[0][i])));
    assert(val(out.planes[1][i]) == moved(l, val(factor), val(image.planes[1][i])));
    assert(val(out.planes[2][i]) == moved(l, val(factor), val(image.planes[2][i])));
}

/// Two saturations are one by the product of their factors where nothing is
/// clamped.
#[verifier::spinoff_prover]
pub proof fn lemma_saturations_compose<T, A: Arithmetic<T>>(
    ops: &A,
    val: spec_fn(T) -> real,
    first: T,
    second: T,
    both: T,
    image: Raster<T>,
    mid: Raster<T>,
    out: Raster<T>,
    direct: Raster<T>,
    c: int,
    i: int,
)
    requires
        is_exact(ops, val),
        image.wf(),
        image.planes.len() == 3,
        val(both) == val(first) * val(second),
        is_saturated(ops, first, image, mid),
        is_saturated(ops, second, mid, out),
        is_saturated(ops, both, image, direct),
        stays_inside(val, val(first), image),
        stays_inside(val, val(second), mid),
        stays_inside(val, val(both), image),
        0 <= c < 3,
        0 <= i < image.width * image.height,
    ensures
        val(out.planes[c][i]) == val(direct.planes[c][i]),
{
    lemma_saturation_is_exact(ops, val, first, image, mid);
    lemma_saturation_is_exact(ops, val, second, mid, out);
    lemma_saturation_is_exact(ops, val, both, image, direct);
    lemma_saturation_keeps_sums(ops, val, first, image, mid, i);
    assert(mid.planes[c].len() == mid.width * mid.height);
    assert(out.planes[c].len() == out.width * out.height);
    assert(direct.planes[c].len() == direct.width * direct.height);
    let l = center(val, image, i);
    let v = val(image.planes[c][i]);
    assert(center(val, mid, i) == l);
    assert(val(mid.planes[c][i]) == moved(l, val(first), v));
    assert(val(out.planes[c][i]) == moved(l, val(second), moved(l, val(first), v)));
    assert(val(direct.planes[c][i]) == moved(l, val(both), v));
    lemma_moved_twice(l, val(first), val(second), v);
}

} // verus!
