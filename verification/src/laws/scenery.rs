//! What a test frame shows, in numbers.

use super::blurring::has_exponentials;
use super::edges::is_whole_part;
use super::exact::{
    denotes, is_exact, lemma_exact_binary, lemma_exact_product, lemma_exact_ratio,
    lemma_exact_whole,
};
use super::exchange::{greater, lemma_exact_most};
use super::peaks::lemma_is_positive;
use super::reals::{
    lemma_product_distributes, lemma_product_not_negative, lemma_product_of_unit, lemma_share_of,
    product, sum,
};
use crate::arith::{
    Arithmetic, Binary, Formula, Test, Unary, binary_answers, decides, evals, offset_answers,
    unary_answers, whole,
};
use crate::frame::Raster;
use crate::plane::{lemma_pixel, lemma_place, maps};
use crate::synthetic::{
    Blob, Star, SyntheticParams, advance, blob_light, central_of, covers, drawn, glow, hot_place,
    is_anchor, is_blob, is_clean, is_edged, is_edged_plane, is_finished, is_hot, is_hot_plane,
    is_nebula, is_nebula_by, is_noisy, is_noisy_plane, is_signal_by, is_sky_gradient, is_spread,
    is_star, is_star_plane, is_star_plane_by, is_sum, lifted, margin_of, multiplied, normal_of,
    offset_squared, spread_of, starlight, state_at, uniform_of, unit_of,
};
use vstd::prelude::*;

verus! {

// ---------------------------------------------------------------------------
// Draws
// ---------------------------------------------------------------------------

/// A draw from the unit range lies in it.
proof fn lemma_unit_draw<T, A: Arithmetic<T>>(
    ops: &A,
    val: spec_fn(T) -> real,
    state: u64,
) -> (u: real)
    requires
        is_exact(ops, val),
    ensures
        denotes(ops, val, unit_of(state), u),
        0 as real <= u <= 1 as real,
{
    lemma_share_drawn(ops, val, state);
    share_drawn(state)
}

/// A draw between two values lies between them.
proof fn lemma_uniform_draw<T, A: Arithmetic<T>>(
    ops: &A,
    val: spec_fn(T) -> real,
    lo: Formula<T>,
    hi: Formula<T>,
    a: real,
    b: real,
    state: u64,
    v: T,
)
    requires
        is_exact(ops, val),
        denotes(ops, val, lo, a),
        denotes(ops, val, hi, b),
        a <= b,
        evals(ops, uniform_of(lo, hi, state), v),
    ensures
        a <= val(v) <= b,
{
    let u = lemma_unit_draw(ops, val, state);
    lemma_exact_binary(ops, val, Binary::Minus, hi, lo, b, a);
    lemma_exact_product(ops, val, hi.minus(lo), unit_of(state), b - a, u);
    lemma_exact_binary(
        ops,
        val,
        Binary::Plus,
        lo,
        hi.minus(lo).times(unit_of(state)),
        a,
        product(b - a, u),
    );
    lemma_product_not_negative(b - a, u);
    lemma_product_not_negative(b - a, (1 as real) - u);
    lemma_product_distributes(b - a, 1 as real, u);
    lemma_product_of_unit(b - a);
}

/// Stars lie inside the frame, four sigmas of their width from its borders:
/// across within its width, down within its height.
pub proof fn lemma_stars_lie_inside<T, A: Arithmetic<T>>(
    ops: &A,
    val: spec_fn(T) -> real,
    params: SyntheticParams<T>,
    i: int,
    star: Star<T>,
    margin: real,
)
    requires
        is_exact(ops, val),
        is_star(ops, params, i, star),
        margin == (4 as real) * val(params.psf_sigma),
        (2 as real) * margin <= params.width as int as real,
        (2 as real) * margin <= params.height as int as real,
    ensures
        margin <= val(star.x) <= params.width as int as real - margin,
        margin <= val(star.y) <= params.height as int as real - margin,
{
    let f = margin_of(params.psf_sigma);
    let s = Formula::Given(params.psf_sigma);
    lemma_exact_whole(ops, val, 4);
    lemma_exact_binary(
        ops,
        val,
        Binary::Times,
        whole(4),
        s,
        4u64 as int as real,
        val(params.psf_sigma),
    );
    let (w, h) = (Formula::<T>::Count(params.width), Formula::<T>::Count(params.height));
    let (a, b) = (params.width as int as real, params.height as int as real);
    assert(denotes(ops, val, w, a));
    assert(denotes(ops, val, h, b));
    lemma_exact_binary(ops, val, Binary::Minus, w, f, a, margin);
    lemma_exact_binary(ops, val, Binary::Minus, h, f, b, margin);
    let n = params.n_stars as int;
    lemma_uniform_draw(
        ops,
        val,
        f,
        w.minus(f),
        margin,
        a - margin,
        state_at(params.seed, i as nat),
        star.x,
    );
    lemma_uniform_draw(
        ops,
        val,
        f,
        h.minus(f),
        margin,
        b - margin,
        state_at(params.seed, (n + i) as nat),
        star.y,
    );
}

/// The shorter side of a frame.
pub open spec fn shorter_side(w: usize, h: usize) -> int {
    if w < h {
        w as int
    } else {
        h as int
    }
}

/// The width of a blob.
proof fn lemma_blob_width<T, A: Arithmetic<T>>(
    ops: &A,
    val: spec_fn(T) -> real,
    w: usize,
    h: usize,
    state: u64,
    v: T,
)
    requires
        is_exact(ops, val),
        evals(
            ops,
            uniform_of(Formula::Ratio(8, 100), Formula::Ratio(25, 100), state).times(
                Formula::Count(
                    if w < h {
                        w
                    } else {
                        h
                    },
                ),
            ),
            v,
        ),
    ensures
        (8 as real) * (shorter_side(w, h) as real) <= (100 as real) * val(v) <= (25 as real) * (
        shorter_side(w, h) as real),
{
    let side = if w < h {
        w
    } else {
        h
    };
    let f = uniform_of::<T>(Formula::Ratio(8, 100), Formula::Ratio(25, 100), state);
    let (p, q) = (
        (8u64 as int as real) / (100u64 as int as real),
        (25u64 as int as real) / (100u64 as int as real),
    );
    lemma_exact_ratio(ops, val, 8, 100);
    lemma_exact_ratio(ops, val, 25, 100);
    let (x, y) = choose|x: T, y: T|
        evals(ops, f, x) && evals(ops, Formula::Count(side), y) && #[trigger] binary_answers(
            ops,
            Binary::Times,
            x,
            y,
            v,
        );
    lemma_uniform_draw(ops, val, Formula::Ratio(8, 100), Formula::Ratio(25, 100), p, q, state, x);
    let (a, b) = (val(x), side as int as real);
    assert((8 as real) * b <= (100 as real) * (a * b) <= (25 as real) * b) by (nonlinear_arith)
        requires
            (8 as real) <= (100 as real) * a <= (25 as real),
            b >= 0 as real,
    ;
}

/// The blobs of the nebulosity lie in the central three fifths of the frame:
/// across of its width, down of its height. Their amplitudes are three tenths to
/// one, their widths eight to twenty-five hundredths of the shorter side.
pub proof fn lemma_blobs_lie_inside<T, A: Arithmetic<T>>(
    ops: &A,
    val: spec_fn(T) -> real,
    w: usize,
    h: usize,
    seed: u64,
    start: nat,
    i: int,
    blob: Blob<T>,
)
    requires
        is_exact(ops, val),
        is_blob(ops, w, h, seed, start, i, blob),
    ensures
        w as int as real <= (5 as real) * val(blob.x) <= (4 as real) * (w as int as real),
        h as int as real <= (5 as real) * val(blob.y) <= (4 as real) * (h as int as real),
        3 as real <= (10 as real) * val(blob.amplitude) <= 10 as real,
        (8 as real) * (shorter_side(w, h) as real) <= (100 as real) * val(blob.sigma)
            <= (25 as real) * (shorter_side(w, h) as real),
{
    lemma_blob_width(ops, val, w, h, state_at(seed, (start + 15 + i) as nat), blob.sigma);
    lemma_central_draw(ops, val, w, state_at(seed, (start + i) as nat), blob.x);
    lemma_central_draw(ops, val, h, state_at(seed, (start + 5 + i) as nat), blob.y);
    lemma_exact_ratio(ops, val, 3, 10);
    lemma_exact_whole(ops, val, 1);
    lemma_uniform_draw(
        ops,
        val,
        Formula::Ratio(3, 10),
        whole(1),
        (3u64 as int as real) / (10u64 as int as real),
        1 as real,
        state_at(seed, (start + 10 + i) as nat),
        blob.amplitude,
    );
}

/// A draw from the central three fifths of a dimension.
proof fn lemma_central_draw<T, A: Arithmetic<T>>(
    ops: &A,
    val: spec_fn(T) -> real,
    size: usize,
    state: u64,
    v: T,
)
    requires
        is_exact(ops, val),
        evals(ops, central_of(size, state), v),
    ensures
        size as int as real <= (5 as real) * val(v) <= (4 as real) * (size as int as real),
{
    let n = size as int as real;
    let c = Formula::<T>::Count(size);
    assert(denotes(ops, val, c, n));
    lemma_exact_ratio(ops, val, 1, 5);
    lemma_exact_ratio(ops, val, 4, 5);
    let (p, q) = (
        (1u64 as int as real) / (5u64 as int as real),
        (4u64 as int as real) / (5u64 as int as real),
    );
    lemma_exact_product(ops, val, Formula::Ratio(1, 5), c, p, n);
    lemma_exact_product(ops, val, Formula::Ratio(4, 5), c, q, n);
    lemma_fifths(n, p, q);
    lemma_uniform_draw(
        ops,
        val,
        Formula::Ratio(1, 5).times(c),
        Formula::Ratio(4, 5).times(c),
        product(p, n),
        product(q, n),
        state,
        v,
    );
}

/// Fifths of a number.
proof fn lemma_fifths(n: real, p: real, q: real)
    requires
        n >= 0 as real,
        p == (1u64 as int as real) / (5u64 as int as real),
        q == (4u64 as int as real) / (5u64 as int as real),
    ensures
        (5 as real) * product(p, n) == n,
        (5 as real) * product(q, n) == (4 as real) * n,
        product(p, n) <= product(q, n),
{
    reveal(product);
    assert((5 as real) * (p * n) == n) by (nonlinear_arith)
        requires
            p == (1 as real) / (5 as real),
    ;
    assert((5 as real) * (q * n) == (4 as real) * n) by (nonlinear_arith)
        requires
            q == (4 as real) / (5 as real),
    ;
}

// ---------------------------------------------------------------------------
// Noise
// ---------------------------------------------------------------------------

/// Every sample of a noisy image has noise of its own: Gaussian noise of the
/// given sigma, from the two draws that follow those of the samples before it,
/// channel after channel and row after row. No two samples share a draw.
pub proof fn lemma_noise_is_drawn_apart<T, A: Arithmetic<T>>(
    ops: &A,
    sigma: T,
    seed: u64,
    start: nat,
    image: Raster<T>,
    out: Raster<T>,
    c: int,
    i: int,
    d: int,
    j: int,
)
    requires
        image.wf(),
        is_noisy(ops, sigma, seed, start, image, true, out),
        0 <= c < image.planes.len(),
        0 <= i < image.width * image.height,
        0 <= d < image.planes.len(),
        0 <= j < image.width * image.height,
        c < d || c == d && i < j,
    ensures
        out.same_shape(image),
        evals(
            ops,
            Formula::Given(image.planes[c][i]).plus(
                normal_of(
                    sigma,
                    state_at(seed, (start + 2 * (c * (image.width * image.height) + i)) as nat),
                ),
            ),
            out.planes[c][i],
        ),
        start <= start + 2 * (c * (image.width * image.height) + i),
        start + 2 * (c * (image.width * image.height) + i) + 2 <= start + 2 * (d * (image.width
            * image.height) + j),
{
    let n = (image.width * image.height) as int;
    assert(image.planes[c].len() == n);
    assert(is_noisy_plane(ops, sigma, seed, start, c, image.planes[c], out.planes[c]));
    assert(0 <= c * n) by (nonlinear_arith)
        requires
            0 <= c,
            0 <= n,
    ;
    if c < d {
        assert(c * n + n <= d * n) by (nonlinear_arith)
            requires
                c + 1 <= d,
                0 <= n,
        ;
    }
}

/// Logarithms of the unit range, roots and cosines are those of numbers.
pub open spec fn has_polar<T, A: Arithmetic<T>>(
    ops: &A,
    val: spec_fn(T) -> real,
    ln: spec_fn(real) -> real,
    root: spec_fn(real) -> real,
    cosine: spec_fn(real) -> real,
    turn: real,
) -> bool {
    &&& forall|x: T, v: T| #[trigger]
        unary_answers(ops, Unary::Ln, x, v) && val(x) > 0 as real ==> val(v) == ln(val(x))
    &&& forall|x: T, v: T| #[trigger]
        unary_answers(ops, Unary::Sqrt, x, v) && val(x) >= 0 as real ==> val(v) == root(val(x))
    &&& forall|x: T, v: T| #[trigger] unary_answers(ops, Unary::Cos, x, v) ==> val(v) == cosine(
        val(x),
    )
    &&& forall|x: T, v: T| #[trigger] unary_answers(ops, Unary::Neg, x, v) ==> val(v) == -val(x)
    &&& forall|v: T| #[trigger] evals(ops, Formula::Turn, v) ==> val(v) == turn
    &&& forall|a: real| (0 as real) < a && a <= 1 as real ==> #[trigger] ln(a) <= 0 as real
}

/// The share of the unit range that is drawn in a state.
pub open spec fn share_drawn(state: u64) -> real {
    ((drawn(state) >> 11) as int as real) / (0x20_0000_0000_0000u64 as int as real)
}

/// A Gaussian draw by polar coordinates: the radius from one draw, the angle from
/// the next.
pub open spec fn polar_draw(
    sigma: real,
    ln: spec_fn(real) -> real,
    root: spec_fn(real) -> real,
    cosine: spec_fn(real) -> real,
    turn: real,
    first: real,
    second: real,
) -> real {
    product(
        product(sigma, root(product(-(2 as real), ln((1 as real) - first)))),
        cosine(product(turn, second)),
    )
}

/// A draw from the unit range in numbers.
proof fn lemma_share_drawn<T, A: Arithmetic<T>>(ops: &A, val: spec_fn(T) -> real, state: u64)
    requires
        is_exact(ops, val),
    ensures
        denotes(ops, val, unit_of(state), share_drawn(state)),
        0 as real <= share_drawn(state),
        share_drawn(state) < 1 as real,
{
    let k = drawn(state);
    assert(k >> 11 <= 0x1f_ffff_ffff_ffffu64) by (bit_vector);
    let p = k >> 11;
    lemma_exact_ratio(ops, val, p, 0x20_0000_0000_0000);
    let (a, b) = (p as int as real, 0x20_0000_0000_0000u64 as int as real);
    lemma_share_of(a, b);
    assert(a / b < 1 as real) by (nonlinear_arith)
        requires
            a < b,
            b > 0 as real,
    ;
}

/// The noise of a sample is a Gaussian draw of the given sigma by polar
/// coordinates, from the two draws that are the sample's own.
pub proof fn lemma_noise_is_gaussian<T, A: Arithmetic<T>>(
    ops: &A,
    val: spec_fn(T) -> real,
    ln: spec_fn(real) -> real,
    root: spec_fn(real) -> real,
    cosine: spec_fn(real) -> real,
    turn: real,
    sigma: T,
    seed: u64,
    start: nat,
    image: Raster<T>,
    out: Raster<T>,
    c: int,
    i: int,
    k: nat,
)
    requires
        is_exact(ops, val),
        has_polar(ops, val, ln, root, cosine, turn),
        image.wf(),
        is_noisy(ops, sigma, seed, start, image, true, out),
        0 <= c < image.planes.len(),
        0 <= i < image.width * image.height,
        k == start + 2 * (c * (image.width * image.height) + i),
    ensures
        val(out.planes[c][i]) == val(image.planes[c][i]) + polar_draw(
            val(sigma),
            ln,
            root,
            cosine,
            turn,
            share_drawn(state_at(seed, k)),
            share_drawn(state_at(seed, k + 1)),
        ),
{
    let s = state_at(seed, k);
    assert(state_at(seed, k + 1) == advance(s));
    lemma_share_drawn(ops, val, s);
    lemma_share_drawn(ops, val, advance(s));
    let (u, w) = (share_drawn(s), share_drawn(advance(s)));
    lemma_exact_whole(ops, val, 1);
    lemma_exact_whole(ops, val, 2);
    lemma_exact_binary(ops, val, Binary::Minus, whole(1), unit_of(s), 1 as real, u);
    let first = whole::<T>(1).minus(unit_of(s));
    let (a, l) = ((1 as real) - u, ln((1 as real) - u));
    let log = first.apply(Unary::Ln);
    assert forall|v: T| #[trigger] evals(ops, log, v) implies val(v) == l by {
        let x = choose|x: T| evals(ops, first, x) && #[trigger] unary_answers(ops, Unary::Ln, x, v);
        assert(val(x) == a);
    }
    let two = whole::<T>(2).apply(Unary::Neg);
    assert forall|v: T| #[trigger] evals(ops, two, v) implies val(v) == -(2 as real) by {
        let x = choose|x: T|
            evals(ops, whole(2), x) && #[trigger] unary_answers(ops, Unary::Neg, x, v);
    }
    lemma_exact_product(ops, val, two, log, -(2 as real), l);
    let m = product(-(2 as real), l);
    lemma_twice_taken(l);
    let square = two.times(log);
    let radius = square.apply(Unary::Sqrt);
    assert forall|v: T| #[trigger] evals(ops, radius, v) implies val(v) == root(m) by {
        let x = choose|x: T|
            evals(ops, square, x) && #[trigger] unary_answers(ops, Unary::Sqrt, x, v);
        assert(val(x) == m);
    }
    let f = Formula::Given(sigma);
    lemma_exact_product(ops, val, f, radius, val(sigma), root(m));
    lemma_exact_product(ops, val, Formula::Turn, unit_of(advance(s)), turn, w);
    let angle = Formula::<T>::Turn.times(unit_of(advance(s)));
    let wave = angle.apply(Unary::Cos);
    assert forall|v: T| #[trigger] evals(ops, wave, v) implies val(v) == cosine(
        product(turn, w),
    ) by {
        let x = choose|x: T|
            evals(ops, angle, x) && #[trigger] unary_answers(ops, Unary::Cos, x, v);
    }
    let (p, q) = (product(val(sigma), root(m)), cosine(product(turn, w)));
    lemma_exact_product(ops, val, f.times(radius), wave, p, q);
    let n = (image.width * image.height) as int;
    assert(image.planes[c].len() == n);
    assert(is_noisy_plane(ops, sigma, seed, start, c, image.planes[c], out.planes[c]));
    let g = Formula::Given(image.planes[c][i]);
    lemma_exact_binary(
        ops,
        val,
        Binary::Plus,
        g,
        normal_of(sigma, s),
        val(image.planes[c][i]),
        product(p, q),
    );
    assert(evals(ops, g.plus(normal_of(sigma, s)), out.planes[c][i]));
}

/// Minus two times a number that is not positive.
proof fn lemma_twice_taken(l: real)
    requires
        l <= 0 as real,
    ensures
        product(-(2 as real), l) >= 0 as real,
{
    reveal(product);
    assert((-(2 as real)) * l >= 0 as real) by (nonlinear_arith)
        requires
            l <= 0 as real,
    ;
}

/// Hot pixel `k` falls on place `i`: its row is drawn with the rows, its column
/// with the columns, after them.
pub open spec fn is_drawn_at<T>(
    params: SyntheticParams<T>,
    start: nat,
    i: int,
    k: int,
) -> bool {
    &&& i / params.width as int == drawn(state_at(params.seed, (start + k) as nat)) as int
        % params.height as int
    &&& i % params.width as int == drawn(
        state_at(params.seed, (start + params.hot_pixels + k) as nat),
    ) as int % params.width as int
}

/// A finished frame has its hot pixels at the same places in every channel, at
/// one and a half times the greatest star amplitude, and no negative sample
/// elsewhere: what was negative is zero, and the rest is as it was.
pub proof fn lemma_hot_pixels_are_shared<T, A: Arithmetic<T>>(
    ops: &A,
    val: spec_fn(T) -> real,
    params: SyntheticParams<T>,
    start: nat,
    hot: T,
    image: Raster<T>,
    out: Raster<T>,
    i: int,
) -> (is_one: bool)
    requires
        is_exact(ops, val),
        image.wf(),
        image.width == params.width,
        image.height == params.height,
        is_finished(ops, params, start, hot, image, out),
        0 <= i < image.width * image.height,
    ensures
        out.same_shape(image),
        is_one ==> forall|c: int|
            0 <= c < out.planes.len() ==> val(#[trigger] out.planes[c][i]) == greater(
                product(val(params.star_amplitude.1), (15 as real) / (10 as real)),
                0 as real,
            ),
        !is_one ==> forall|c: int|
            0 <= c < out.planes.len() ==> val(#[trigger] out.planes[c][i]) == greater(
                val(image.planes[c][i]),
                0 as real,
            ),
        is_one <==> exists|k: int|
            0 <= k < params.hot_pixels && #[trigger] is_drawn_at(params, start, i, k),
        params.hot_pixels == 0 ==> !is_one,
{
    let count = params.hot_pixels as nat;
    let (w, h) = (params.width as int, params.height as int);
    let is_one = is_hot(params.seed, start, count, w, h, i, count as int);
    lemma_place(i, w, h);
    assert forall|k: int| 0 <= k < params.hot_pixels implies #[trigger] is_drawn_at(
        params,
        start,
        i,
        k,
    ) == (hot_place(params.seed, start, count, w, h, k) == i) by {
        let y = drawn(state_at(params.seed, (start + k) as nat)) as int % h;
        let x = drawn(state_at(params.seed, (start + count + k) as nat)) as int % w;
        lemma_pixel(x, y, w, h);
    }
    if is_one {
        let k = choose|k: int|
            0 <= k < count && #[trigger] hot_place(params.seed, start, count, w, h, k) == i;
        assert(is_drawn_at(params, start, i, k));
    }
    lemma_exact_whole(ops, val, 0);
    lemma_exact_ratio(ops, val, 15, 10);
    let q = (15u64 as int as real) / (10u64 as int as real);
    lemma_exact_product(
        ops,
        val,
        Formula::Given(params.star_amplitude.1),
        Formula::Ratio(15, 10),
        val(params.star_amplitude.1),
        q,
    );
    assert forall|c: int| 0 <= c < out.planes.len() implies val(#[trigger] out.planes[c][i])
        == greater(
        val(
            if is_one {
                hot
            } else {
                image.planes[c][i]
            },
        ),
        0 as real,
    ) by {
        assert(image.planes[c].len() == image.width * image.height);
        assert(is_hot_plane(ops, params, start, hot, image.planes[c], out.planes[c]));
        let v = if is_one {
            hot
        } else {
            image.planes[c][i]
        };
        lemma_exact_most(ops, val, Formula::Given(v), whole(0), val(v), 0u64 as int as real);
        assert(evals(ops, Formula::Given(v).most(whole(0)), out.planes[c][i]));
    }
    is_one
}

// ---------------------------------------------------------------------------
// Channels and edges
// ---------------------------------------------------------------------------

/// What is left of the light of a pixel: two hundredths in the dark edges, the
/// given numbers of rows at the top and the bottom and of columns at the left
/// and the right; all of it inside.
pub open spec fn light_left(
    edges: (usize, usize, usize, usize),
    w: int,
    h: int,
    x: int,
    y: int,
) -> real {
    if y < edges.0 || y >= h - edges.1 || x < edges.2 || x >= w - edges.3 {
        (2 as real) / (100 as real)
    } else {
        1 as real
    }
}

/// The balance of a channel.
pub open spec fn balance_of<T>(
    val: spec_fn(T) -> real,
    params: SyntheticParams<T>,
    c: int,
) -> real {
    if !params.rgb {
        1 as real
    } else if c == 0 {
        val(params.channel_balance.0)
    } else if c == 1 {
        val(params.channel_balance.1)
    } else {
        val(params.channel_balance.2)
    }
}

/// The noise-free image is the signal times the balance of each channel, with
/// the dark edges dimmed.
pub proof fn lemma_clean_is_signal<T, A: Arithmetic<T>>(
    ops: &A,
    val: spec_fn(T) -> real,
    params: SyntheticParams<T>,
    signal: Seq<T>,
    out: Raster<T>,
    c: int,
    x: int,
    y: int,
)
    requires
        is_exact(ops, val),
        signal.len() == params.width * params.height,
        is_clean(ops, params, signal, out),
        0 <= c < out.planes.len(),
        0 <= x < params.width,
        0 <= y < params.height,
    ensures
        out.width == params.width,
        out.height == params.height,
        out.planes.len() == if params.rgb {
            3nat
        } else {
            1nat
        },
        val(out.planes[c][y * params.width + x]) == product(
            product(val(signal[y * params.width + x]), balance_of(val, params, c)),
            light_left(params.dark_edges, params.width as int, params.height as int, x, y),
        ),
{
    let (w, h) = (params.width as int, params.height as int);
    let flat = choose|flat: Raster<T>| #[trigger]
        is_spread(ops, params, signal, flat) && is_edged(ops, params.dark_edges, flat, out);
    lemma_pixel(x, y, w, h);
    let i = y * w + x;
    let s = val(signal[i]);
    let b = balance_of(val, params, c);
    lemma_product_of_unit(s);
    lemma_product_of_unit(product(s, b));
    assert(val(flat.planes[c][i]) == product(s, b)) by {
        if params.rgb {
            let m = if c == 0 {
                params.channel_balance.0
            } else if c == 1 {
                params.channel_balance.1
            } else {
                params.channel_balance.2
            };
            assert(maps(ops, multiplied(m), signal, flat.planes[c]));
            lemma_exact_product(
                ops,
                val,
                Formula::Given(signal[i]),
                Formula::Given(m),
                s,
                val(m),
            );
            assert(evals(ops, multiplied(m)(signal[i]), flat.planes[c][i]));
        }
    }
    if params.dark_edges != (0usize, 0usize, 0usize, 0usize) {
        let v = flat.planes[c][i];
        assert(is_edged_plane(ops, params.dark_edges, w, h, flat.planes[c], out.planes[c]));
        assert(flat.planes[c].len() == w * h);
        lemma_exact_whole(ops, val, 1);
        lemma_exact_ratio(ops, val, 2, 100);
        lemma_exact_product(
            ops,
            val,
            Formula::Given(v),
            Formula::Ratio(2, 100),
            val(v),
            (2u64 as int as real) / (100u64 as int as real),
        );
        lemma_exact_product(ops, val, Formula::Given(v), whole(1), val(v), 1 as real);
    }
}

// ---------------------------------------------------------------------------
// Light
// ---------------------------------------------------------------------------

/// Logarithms are those of numbers, and exponentials grow and undo them.
pub open spec fn has_logarithms<T, A: Arithmetic<T>>(
    ops: &A,
    val: spec_fn(T) -> real,
    ex: spec_fn(real) -> real,
    ln: spec_fn(real) -> real,
) -> bool {
    &&& has_exponentials(ops, val, ex)
    &&& forall|x: T, v: T| #[trigger]
        unary_answers(ops, Unary::Ln, x, v) ==> val(v) == ln(val(x))
    &&& forall|a: real, b: real| a <= b <==> #[trigger] ex(a) <= #[trigger] ex(b)
    &&& forall|a: real| a > 0 as real ==> ex(#[trigger] ln(a)) == a
}

/// The amplitudes of stars lie in the range that is asked for.
pub proof fn lemma_stars_are_in_range<T, A: Arithmetic<T>>(
    ops: &A,
    val: spec_fn(T) -> real,
    ex: spec_fn(real) -> real,
    ln: spec_fn(real) -> real,
    params: SyntheticParams<T>,
    i: int,
    star: Star<T>,
)
    requires
        is_exact(ops, val),
        has_logarithms(ops, val, ex, ln),
        is_star(ops, params, i, star),
        (0 as real) < val(params.star_amplitude.0) <= val(params.star_amplitude.1),
    ensures
        val(params.star_amplitude.0) <= val(star.amplitude) <= val(params.star_amplitude.1),
{
    let (a, b) = (val(params.star_amplitude.0), val(params.star_amplitude.1));
    let lo = Formula::Given(params.star_amplitude.0).apply(Unary::Ln);
    let hi = Formula::Given(params.star_amplitude.1).apply(Unary::Ln);
    let state = state_at(params.seed, (2 * params.n_stars + i) as nat);
    assert forall|v: T| #[trigger] evals(ops, lo, v) implies val(v) == ln(a) by {
        let u = choose|u: T|
            evals(ops, Formula::Given(params.star_amplitude.0), u) && #[trigger] unary_answers(
                ops,
                Unary::Ln,
                u,
                v,
            );
    }
    assert forall|v: T| #[trigger] evals(ops, hi, v) implies val(v) == ln(b) by {
        let u = choose|u: T|
            evals(ops, Formula::Given(params.star_amplitude.1), u) && #[trigger] unary_answers(
                ops,
                Unary::Ln,
                u,
                v,
            );
    }
    assert(ex(ln(a)) == a && ex(ln(b)) == b);
    let u = choose|u: T|
        evals(ops, uniform_of(lo, hi, state), u) && #[trigger] unary_answers(
            ops,
            Unary::Exp,
            u,
            star.amplitude,
        );
    lemma_uniform_draw(ops, val, lo, hi, ln(a), ln(b), state, u);
    assert(ex(ln(a)) <= ex(val(u)) <= ex(ln(b)));
}

/// The squared distance of a pixel from a point.
pub open spec fn squared_distance(x: int, y: int, cx: real, cy: real) -> real {
    product(x as real - cx, x as real - cx) + product(y as real - cy, y as real - cy)
}

/// The light of a source of Gaussian shape at a pixel.
pub open spec fn gaussian_light(
    ex: spec_fn(real) -> real,
    amplitude: real,
    cx: real,
    cy: real,
    sigma: real,
    x: int,
    y: int,
) -> real {
    product(
        amplitude,
        ex(-squared_distance(x, y, cx, cy) / product(product(2 as real, sigma), sigma)),
    )
}

/// The light of a source in numbers.
proof fn lemma_glow_value<T, A: Arithmetic<T>>(
    ops: &A,
    val: spec_fn(T) -> real,
    ex: spec_fn(real) -> real,
    amplitude: T,
    cx: T,
    cy: T,
    sigma: T,
    x: int,
    y: int,
)
    requires
        is_exact(ops, val),
        has_exponentials(ops, val, ex),
        0 <= x <= usize::MAX,
        0 <= y <= usize::MAX,
        product(product(2 as real, val(sigma)), val(sigma)) != 0 as real,
    ensures
        denotes(
            ops,
            val,
            glow(amplitude, cx, cy, sigma, x, y),
            gaussian_light(ex, val(amplitude), val(cx), val(cy), val(sigma), x, y),
        ),
{
    lemma_offset_value(ops, val, x, cx);
    lemma_offset_value(ops, val, y, cy);
    let (f, g) = (offset_squared(x, cx), offset_squared(y, cy));
    let d = squared_distance(x, y, val(cx), val(cy));
    lemma_exact_binary(
        ops,
        val,
        Binary::Plus,
        f,
        g,
        product(x as real - val(cx), x as real - val(cx)),
        product(y as real - val(cy), y as real - val(cy)),
    );
    let near = f.plus(g).apply(Unary::Neg);
    assert forall|v: T| #[trigger] evals(ops, near, v) implies val(v) == -d by {
        let u = choose|u: T|
            evals(ops, f.plus(g), u) && #[trigger] unary_answers(ops, Unary::Neg, u, v);
    }
    lemma_exact_whole(ops, val, 2);
    let s = Formula::Given(sigma);
    let q = product(product(2 as real, val(sigma)), val(sigma));
    lemma_exact_product(ops, val, whole(2), s, 2 as real, val(sigma));
    lemma_exact_product(ops, val, whole(2).times(s), s, product(2 as real, val(sigma)), val(sigma));
    lemma_exact_binary(ops, val, Binary::Over, near, spread_of(sigma), -d, q);
    let fall = near.over(spread_of(sigma)).apply(Unary::Exp);
    assert forall|v: T| #[trigger] evals(ops, fall, v) implies val(v) == ex(-d / q) by {
        let u = choose|u: T|
            evals(ops, near.over(spread_of(sigma)), u) && #[trigger] unary_answers(
                ops,
                Unary::Exp,
                u,
                v,
            );
    }
    lemma_exact_product(ops, val, Formula::Given(amplitude), fall, val(amplitude), ex(-d / q));
}

/// A squared offset in numbers.
proof fn lemma_offset_value<T, A: Arithmetic<T>>(
    ops: &A,
    val: spec_fn(T) -> real,
    k: int,
    center: T,
)
    requires
        is_exact(ops, val),
        0 <= k <= usize::MAX,
    ensures
        denotes(
            ops,
            val,
            offset_squared(k, center),
            product(k as real - val(center), k as real - val(center)),
        ),
{
    let (c, f) = (Formula::<T>::Count(k as usize), Formula::Given(center));
    assert(denotes(ops, val, c, k as real));
    lemma_exact_binary(ops, val, Binary::Minus, c, f, k as real, val(center));
    let d = k as real - val(center);
    lemma_exact_product(ops, val, c.minus(f), c.minus(f), d, d);
}

/// The light of star `k` at place `i`: its Gaussian light on its stamp, nothing
/// elsewhere.
pub open spec fn light_of_star<T>(
    val: spec_fn(T) -> real,
    ex: spec_fn(real) -> real,
    stars: Seq<Star<T>>,
    anchors: Seq<(i64, i64)>,
    reach: i64,
    sigma: T,
    w: int,
    i: int,
) -> spec_fn(int) -> real {
    |k: int|
        if anchors[k].0 - reach <= i % w <= anchors[k].0 + reach && anchors[k].1 - reach <= i / w
            <= anchors[k].1 + reach {
            gaussian_light(
                ex,
                val(stars[k].amplitude),
                val(stars[k].x),
                val(stars[k].y),
                val(sigma),
                i % w,
                i / w,
            )
        } else {
            0 as real
        }
}

/// The light of the first `n` stars in numbers.
proof fn lemma_starlight_value<T, A: Arithmetic<T>>(
    ops: &A,
    val: spec_fn(T) -> real,
    ex: spec_fn(real) -> real,
    stars: Seq<Star<T>>,
    anchors: Seq<(i64, i64)>,
    reach: i64,
    sigma: T,
    w: int,
    i: int,
    n: int,
)
    requires
        is_exact(ops, val),
        has_exponentials(ops, val, ex),
        0 <= i % w <= usize::MAX,
        0 <= i / w <= usize::MAX,
        product(product(2 as real, val(sigma)), val(sigma)) != 0 as real,
    ensures
        denotes(
            ops,
            val,
            starlight(stars, anchors, reach, sigma, w, i, n),
            sum(light_of_star(val, ex, stars, anchors, reach, sigma, w, i), n),
        ),
    decreases n,
{
    lemma_exact_whole(ops, val, 0);
    if n > 0 {
        lemma_starlight_value(ops, val, ex, stars, anchors, reach, sigma, w, i, n - 1);
        let s = stars[n - 1];
        let light = light_of_star(val, ex, stars, anchors, reach, sigma, w, i);
        if covers(anchors[n - 1], reach, i % w, i / w) {
            lemma_glow_value(ops, val, ex, s.amplitude, s.x, s.y, sigma, i % w, i / w);
            lemma_exact_binary(
                ops,
                val,
                Binary::Plus,
                starlight(stars, anchors, reach, sigma, w, i, n - 1),
                glow(s.amplitude, s.x, s.y, sigma, i % w, i / w),
                sum(light, n - 1),
                light(n - 1),
            );
        }
    }
}

/// A star plane shows every star with Gaussian light of its own amplitude around
/// its own position, as wide as the parameters say, and nothing else.
pub proof fn lemma_stars_shine<T, A: Arithmetic<T>>(
    ops: &A,
    val: spec_fn(T) -> real,
    ex: spec_fn(real) -> real,
    w: int,
    h: int,
    stars: Seq<Star<T>>,
    sigma: T,
    reach: i64,
    anchors: Seq<(i64, i64)>,
    out: Seq<T>,
    i: int,
)
    requires
        is_exact(ops, val),
        has_exponentials(ops, val, ex),
        0 <= w <= usize::MAX,
        0 <= h <= usize::MAX,
        product(product(2 as real, val(sigma)), val(sigma)) != 0 as real,
        is_star_plane_by(ops, w, h, stars, sigma, reach, anchors, out),
        0 <= i < w * h,
    ensures
        val(out[i]) == sum(
            light_of_star(val, ex, stars, anchors, reach, sigma, w, i),
            stars.len() as int,
        ),
{
    lemma_place(i, w, h);
    lemma_starlight_value(
        ops,
        val,
        ex,
        stars,
        anchors,
        reach,
        sigma,
        w,
        i,
        stars.len() as int,
    );
    assert(evals(
        ops,
        starlight(stars, anchors, reach, sigma, w, i, stars.len() as int),
        out[i],
    ));
}

/// The light of blob `k` at place `i`.
pub open spec fn light_of_blob<T>(
    val: spec_fn(T) -> real,
    ex: spec_fn(real) -> real,
    blobs: Seq<Blob<T>>,
    w: int,
    i: int,
) -> spec_fn(int) -> real {
    |k: int|
        gaussian_light(
            ex,
            val(blobs[k].amplitude),
            val(blobs[k].x),
            val(blobs[k].y),
            val(blobs[k].sigma),
            i % w,
            i / w,
        )
}

/// The light of the first `n` blobs in numbers.
proof fn lemma_blob_light_value<T, A: Arithmetic<T>>(
    ops: &A,
    val: spec_fn(T) -> real,
    ex: spec_fn(real) -> real,
    blobs: Seq<Blob<T>>,
    w: int,
    i: int,
    n: int,
)
    requires
        is_exact(ops, val),
        has_exponentials(ops, val, ex),
        0 <= i % w <= usize::MAX,
        0 <= i / w <= usize::MAX,
        n <= blobs.len(),
        forall|k: int|
            0 <= k < blobs.len() ==> product(
                product(2 as real, val((#[trigger] blobs[k]).sigma)),
                val(blobs[k].sigma),
            ) != 0 as real,
    ensures
        denotes(
            ops,
            val,
            blob_light(blobs, w, i, n),
            sum(light_of_blob(val, ex, blobs, w, i), n),
        ),
    decreases n,
{
    lemma_exact_whole(ops, val, 0);
    if n > 0 {
        lemma_blob_light_value(ops, val, ex, blobs, w, i, n - 1);
        let b = blobs[n - 1];
        let light = light_of_blob(val, ex, blobs, w, i);
        lemma_glow_value(ops, val, ex, b.amplitude, b.x, b.y, b.sigma, i % w, i / w);
        lemma_exact_binary(
            ops,
            val,
            Binary::Plus,
            blob_light(blobs, w, i, n - 1),
            glow(b.amplitude, b.x, b.y, b.sigma, i % w, i / w),
            sum(light, n - 1),
            light(n - 1),
        );
    }
}

/// Nebulosity is the light of its blobs, each Gaussian with an amplitude, a
/// position and a width of its own, brought to the amplitude that is asked for by
/// one scale for the whole frame.
pub proof fn lemma_blobs_shine<T, A: Arithmetic<T>>(
    ops: &A,
    val: spec_fn(T) -> real,
    ex: spec_fn(real) -> real,
    w: int,
    h: int,
    amplitude: T,
    blobs: Seq<Blob<T>>,
    raw: Seq<T>,
    peak: T,
    lit: bool,
    scale: T,
    out: Seq<T>,
    i: int,
)
    requires
        is_exact(ops, val),
        has_exponentials(ops, val, ex),
        0 <= w <= usize::MAX,
        0 <= h <= usize::MAX,
        forall|k: int|
            0 <= k < blobs.len() ==> product(
                product(2 as real, val((#[trigger] blobs[k]).sigma)),
                val(blobs[k].sigma),
            ) != 0 as real,
        is_nebula_by(ops, w, h, amplitude, blobs, raw, peak, lit, scale, out),
        0 <= i < w * h,
    ensures
        val(out[i]) == product(
            sum(light_of_blob(val, ex, blobs, w, i), blobs.len() as int),
            if lit {
                val(scale)
            } else {
                1 as real
            },
        ),
{
    lemma_place(i, w, h);
    let n = blobs.len() as int;
    lemma_blob_light_value(ops, val, ex, blobs, w, i, n);
    assert(evals(ops, blob_light(blobs, w, i, n), raw[i]));
    lemma_product_of_unit(val(raw[i]));
    if lit {
        let (f, g) = (Formula::Given(raw[i]), Formula::Given(scale));
        lemma_exact_product(ops, val, f, g, val(raw[i]), val(scale));
        assert(evals(ops, multiplied(scale)(raw[i]), out[i]));
    }
}

/// Whole numbers are rounded up and cut off as numbers are.
pub open spec fn counts_pixels<T, A: Arithmetic<T>>(ops: &A, val: spec_fn(T) -> real) -> bool {
    &&& forall|x: T, v: T| #[trigger]
        unary_answers(ops, Unary::Ceil, x, v) ==> is_rounded_up(val(x), val(v))
    &&& forall|x: T, k: i64| #[trigger]
        offset_answers(ops, x, k) && 0 as real <= val(x) <= i64::MAX as int as real
            ==> is_whole_part(val(x), k as int)
}

/// `b` is the least whole number that is no less than `a`.
pub open spec fn is_rounded_up(a: real, b: real) -> bool {
    &&& a <= b < a + 1 as real
    &&& exists|k: int| #[trigger] is_whole(b, k)
}

/// `b` is the whole number `k`.
pub open spec fn is_whole(b: real, k: int) -> bool {
    b == k as real
}

/// The stamp of a star along one axis.
#[verifier::spinoff_prover]
proof fn lemma_stamp_axis(center: real, extent: real, reach: int, anchor: int, edge: real, x: int)
    requires
        is_whole_part(center, anchor),
        is_rounded_up(extent, edge),
        is_whole_part(edge, reach),
    ensures
        center - extent <= x as real <= center + extent ==> anchor - reach <= x <= anchor + reach,
        anchor - reach <= x <= anchor + reach ==> center - extent - (2 as real) < (x as real) && (
        x as real) < center + extent + (2 as real),
{
    let n = choose|n: int| #[trigger] is_whole(edge, n);
    assert(n == reach);
    let (a, r, v) = (anchor as real, reach as real, x as real);
    assert(v < a + r + 1 as real ==> x < anchor + reach + 1);
    assert(v > a - r - 1 as real ==> x > anchor - reach - 1);
    assert(x <= anchor + reach ==> v <= a + r);
    assert(x >= anchor - reach ==> v >= a - r);
}

/// A star is drawn on every pixel no further than four sigmas from it across and
/// down, and on none further than four sigmas and two pixels.
pub proof fn lemma_stamps_reach<T, A: Arithmetic<T>>(
    ops: &A,
    val: spec_fn(T) -> real,
    w: int,
    h: int,
    stars: Seq<Star<T>>,
    sigma: T,
    reach: i64,
    anchors: Seq<(i64, i64)>,
    out: Seq<T>,
    k: int,
    x: int,
    y: int,
    extent: real,
)
    requires
        is_exact(ops, val),
        counts_pixels(ops, val),
        is_star_plane_by(ops, w, h, stars, sigma, reach, anchors, out),
        0 <= k < stars.len(),
        extent == (4 as real) * val(sigma),
        0 as real <= extent <= (i64::MAX - 1) as real,
        0 as real <= val(stars[k].x) <= i64::MAX as int as real,
        0 as real <= val(stars[k].y) <= i64::MAX as int as real,
    ensures
        val(stars[k].x) - extent <= x as real <= val(stars[k].x) + extent && val(stars[k].y)
            - extent <= y as real <= val(stars[k].y) + extent ==> covers(anchors[k], reach, x, y),
        covers(anchors[k], reach, x, y) ==> val(stars[k].x) - extent - (2 as real) < (x as real)
            && (x as real) < val(stars[k].x) + extent + (2 as real),
        covers(anchors[k], reach, x, y) ==> val(stars[k].y) - extent - (2 as real) < (y as real)
            && (y as real) < val(stars[k].y) + extent + (2 as real),
{
    let f = whole(4).times(Formula::Given(sigma));
    lemma_exact_whole(ops, val, 4);
    lemma_exact_binary(
        ops,
        val,
        Binary::Times,
        whole(4),
        Formula::Given(sigma),
        4u64 as int as real,
        val(sigma),
    );
    let v = choose|v: T|
        evals(ops, f.apply(Unary::Ceil), v) && #[trigger] offset_answers(ops, v, reach);
    let u = choose|u: T| evals(ops, f, u) && #[trigger] unary_answers(ops, Unary::Ceil, u, v);
    assert(is_rounded_up(val(u), val(v)));
    assert(is_anchor(ops, stars[k], anchors[k]));
    assert(is_whole_part(val(v), reach as int));
    let (s, a) = (stars[k], anchors[k]);
    lemma_stamp_axis(val(s.x), extent, reach as int, a.0 as int, val(v), x);
    lemma_stamp_axis(val(s.y), extent, reach as int, a.1 as int, val(v), y);
}

/// The signal of a pixel is the light of the stars, that of the nebulosity and
/// that of the sky gradient, where these are asked for, and the background, added
/// up.
pub proof fn lemma_signal_adds_up<T, A: Arithmetic<T>>(
    ops: &A,
    val: spec_fn(T) -> real,
    params: SyntheticParams<T>,
    stars: Seq<Star<T>>,
    points: Seq<T>,
    lit: bool,
    clouded: Seq<T>,
    sloped: Seq<T>,
    out: Seq<T>,
    i: int,
) -> (r: (Seq<T>, Seq<T>))
    requires
        is_exact(ops, val),
        is_signal_by(ops, params, stars, points, lit, clouded, sloped, out),
        0 <= i < params.width * params.height,
    ensures
        is_star_plane(
            ops,
            params.width as int,
            params.height as int,
            stars,
            params.psf_sigma,
            points,
        ),
        val(params.nebula_amplitude) > 0 as real ==> is_nebula(
            ops,
            params.width,
            params.height,
            params.nebula_amplitude,
            params.seed,
            3 * params.n_stars as nat,
            r.0,
        ),
        val(params.gradient_amplitude) > 0 as real ==> is_sky_gradient(
            ops,
            params.width as int,
            params.height as int,
            params.gradient_amplitude,
            r.1,
        ),
        val(out[i]) == val(points[i]) + (if val(params.nebula_amplitude) > 0 as real {
            val(r.0[i])
        } else {
            0 as real
        }) + (if val(params.gradient_amplitude) > 0 as real {
            val(r.1[i])
        } else {
            0 as real
        }) + val(params.background),
{
    lemma_is_positive(ops, val, params.nebula_amplitude);
    lemma_is_positive(ops, val, params.gradient_amplitude);
    let nebula = if lit {
        choose|nebula: Seq<T>| #[trigger]
            is_nebula(
                ops,
                params.width,
                params.height,
                params.nebula_amplitude,
                params.seed,
                3 * params.n_stars as nat,
                nebula,
            ) && is_sum(ops, points, nebula, clouded)
    } else {
        points
    };
    let steep = choose|lit: bool| #[trigger]
        decides(ops, Test::Less, whole(0), Formula::Given(params.gradient_amplitude), lit)
            && if lit {
            exists|sky: Seq<T>| #[trigger]
                is_sky_gradient(
                    ops,
                    params.width as int,
                    params.height as int,
                    params.gradient_amplitude,
                    sky,
                ) && is_sum(ops, clouded, sky, sloped)
        } else {
            sloped == clouded
        };
    let sky = if steep {
        choose|sky: Seq<T>| #[trigger]
            is_sky_gradient(
                ops,
                params.width as int,
                params.height as int,
                params.gradient_amplitude,
                sky,
            ) && is_sum(ops, clouded, sky, sloped)
    } else {
        points
    };
    assert(points.len() == params.width * params.height);
    if lit {
        lemma_sum_value(ops, val, points, nebula, clouded, i);
    }
    if steep {
        lemma_sum_value(ops, val, clouded, sky, sloped, i);
    }
    let (f, g) = (Formula::Given(sloped[i]), Formula::Given(params.background));
    lemma_exact_binary(ops, val, Binary::Plus, f, g, val(sloped[i]), val(params.background));
    assert(evals(ops, lifted(params.background)(sloped[i]), out[i]));
    (nebula, sky)
}

/// A sum of planes in numbers.
proof fn lemma_sum_value<T, A: Arithmetic<T>>(
    ops: &A,
    val: spec_fn(T) -> real,
    a: Seq<T>,
    b: Seq<T>,
    out: Seq<T>,
    i: int,
)
    requires
        is_exact(ops, val),
        is_sum(ops, a, b, out),
        0 <= i < a.len(),
    ensures
        val(out[i]) == val(a[i]) + val(b[i]),
{
    let (f, g) = (Formula::Given(a[i]), Formula::Given(b[i]));
    lemma_exact_binary(ops, val, Binary::Plus, f, g, val(a[i]), val(b[i]));
    assert(evals(ops, f.plus(g), out[i]));
}

} // verus!
