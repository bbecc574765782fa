//! Laws of the synthetic images.

use super::answers::{
    is_deterministic, lemma_one_decision, lemma_one_offset, lemma_one_sequence, lemma_one_value,
};
use super::stretching::lemma_one_map;
use crate::arith::{
    Arithmetic, Binary, Formula, Test, Unary, binary_answers, decides, evals, test_answers, whole,
};
use crate::frame::Raster;
use crate::plane::{largest_of, maps};
use crate::synthetic::{
    Blob, Star, SyntheticImage, SyntheticParams, adds_gradient, adds_nebula, are_blobs, are_stars,
    blob_light, central_of, draws_before_hot, in_dark_edge, is_anchor, is_blob, is_clean, is_edged,
    is_edged_plane, is_finished, is_hot, is_hot_plane, is_nebula, is_nebula_by, is_noisy,
    is_noisy_plane, is_observed, is_signal, is_signal_by, is_sky_gradient, is_slope, is_spread,
    is_star, is_star_plane, is_star_plane_by, is_sum, is_test_image, lifted, margin_of, multiplied,
    noise_draw, normal_of, signal_draws, starlight, state_at, summit_of, tilt, tilted, uniform_of,
};
use vstd::prelude::*;

verus! {

/// A seed has one star field.
proof fn lemma_one_star_field<T, A: Arithmetic<T>>(
    ops: &A,
    params: SyntheticParams<T>,
    a: Seq<Star<T>>,
    b: Seq<Star<T>>,
)
    requires
        is_deterministic(ops),
        are_stars(ops, params, a),
        are_stars(ops, params, b),
    ensures
        a == b,
{
    let n = params.n_stars as int;
    let margin = margin_of(params.psf_sigma);
    assert forall|i: int| 0 <= i < a.len() implies #[trigger] a[i] == b[i] by {
        assert(is_star(ops, params, i, a[i]));
        assert(is_star(ops, params, i, b[i]));
        lemma_one_value(
            ops,
            uniform_of(
                margin,
                Formula::Count(params.width).minus(margin),
                state_at(params.seed, i as nat),
            ),
            a[i].x,
            b[i].x,
        );
        lemma_one_value(
            ops,
            uniform_of(
                margin,
                Formula::Count(params.height).minus(margin),
                state_at(params.seed, (n + i) as nat),
            ),
            a[i].y,
            b[i].y,
        );
        lemma_one_value(
            ops,
            uniform_of(
                Formula::Given(params.star_amplitude.0).apply(Unary::Ln),
                Formula::Given(params.star_amplitude.1).apply(Unary::Ln),
                state_at(params.seed, (2 * n + i) as nat),
            ).apply(Unary::Exp),
            a[i].amplitude,
            b[i].amplitude,
        );
    }
    assert(a =~= b);
}

/// Stars have one plane of light.
proof fn lemma_one_star_plane<T, A: Arithmetic<T>>(
    ops: &A,
    w: int,
    h: int,
    stars: Seq<Star<T>>,
    sigma: T,
    a: Seq<T>,
    b: Seq<T>,
)
    requires
        is_deterministic(ops),
        is_star_plane(ops, w, h, stars, sigma, a),
        is_star_plane(ops, w, h, stars, sigma, b),
    ensures
        a == b,
{
    let (r, s) = choose|reach: i64, anchors: Seq<(i64, i64)>| #[trigger]
        is_star_plane_by(ops, w, h, stars, sigma, reach, anchors, a);
    let (q, t) = choose|reach: i64, anchors: Seq<(i64, i64)>| #[trigger]
        is_star_plane_by(ops, w, h, stars, sigma, reach, anchors, b);
    lemma_one_offset(ops, whole(4).times(Formula::Given(sigma)).apply(Unary::Ceil), r, q);
    assert forall|i: int| 0 <= i < s.len() implies #[trigger] s[i] == t[i] by {
        assert(is_anchor(ops, stars[i], s[i]));
        assert(is_anchor(ops, stars[i], t[i]));
        lemma_one_offset(ops, Formula::Given(stars[i].x), s[i].0, t[i].0);
        lemma_one_offset(ops, Formula::Given(stars[i].y), s[i].1, t[i].1);
    }
    assert(s =~= t);
    lemma_one_sequence(
        ops,
        |i: int| starlight(stars, s, r, sigma, w, i, stars.len() as int),
        a,
        b,
    );
}

/// A seed has one set of blobs.
proof fn lemma_one_set_of_blobs<T, A: Arithmetic<T>>(
    ops: &A,
    w: usize,
    h: usize,
    seed: u64,
    start: nat,
    a: Seq<Blob<T>>,
    b: Seq<Blob<T>>,
)
    requires
        is_deterministic(ops),
        are_blobs(ops, w, h, seed, start, a),
        are_blobs(ops, w, h, seed, start, b),
    ensures
        a == b,
{
    let side = if w < h {
        w
    } else {
        h
    };
    assert forall|i: int| 0 <= i < a.len() implies #[trigger] a[i] == b[i] by {
        assert(is_blob(ops, w, h, seed, start, i, a[i]));
        assert(is_blob(ops, w, h, seed, start, i, b[i]));
        lemma_one_value(
            ops,
            central_of(w, state_at(seed, (start + i) as nat)),
            a[i].x,
            b[i].x,
        );
        lemma_one_value(
            ops,
            central_of(h, state_at(seed, (start + 5 + i) as nat)),
            a[i].y,
            b[i].y,
        );
        lemma_one_value(
            ops,
            uniform_of(
                Formula::Ratio(3, 10),
                whole(1),
                state_at(seed, (start + 10 + i) as nat),
            ),
            a[i].amplitude,
            b[i].amplitude,
        );
        lemma_one_value(
            ops,
            uniform_of(
                Formula::Ratio(8, 100),
                Formula::Ratio(25, 100),
                state_at(seed, (start + 15 + i) as nat),
            ).times(Formula::Count(side)),
            a[i].sigma,
            b[i].sigma,
        );
    }
    assert(a =~= b);
}

/// A seed has one nebulosity.
proof fn lemma_one_nebula<T, A: Arithmetic<T>>(
    ops: &A,
    w: usize,
    h: usize,
    amplitude: T,
    seed: u64,
    start: nat,
    a: Seq<T>,
    b: Seq<T>,
)
    requires
        is_deterministic(ops),
        is_nebula(ops, w, h, amplitude, seed, start, a),
        is_nebula(ops, w, h, amplitude, seed, start, b),
    ensures
        a == b,
{
    let (s, raw, peak, lit, scale) = choose|
        blobs: Seq<Blob<T>>,
        raw: Seq<T>,
        peak: T,
        lit: bool,
        scale: T,
    |
        are_blobs(ops, w, h, seed, start, blobs) && #[trigger] is_nebula_by(
            ops,
            w as int,
            h as int,
            amplitude,
            blobs,
            raw,
            peak,
            lit,
            scale,
            a,
        );
    let (t, bare, top, bright, factor) = choose|
        blobs: Seq<Blob<T>>,
        raw: Seq<T>,
        peak: T,
        lit: bool,
        scale: T,
    |
        are_blobs(ops, w, h, seed, start, blobs) && #[trigger] is_nebula_by(
            ops,
            w as int,
            h as int,
            amplitude,
            blobs,
            raw,
            peak,
            lit,
            scale,
            b,
        );
    lemma_one_set_of_blobs(ops, w, h, seed, start, s, t);
    lemma_one_sequence(ops, |i: int| blob_light(s, w as int, i, s.len() as int), raw, bare);
    lemma_one_value(ops, largest_of(raw, raw.len() as int), peak, top);
    lemma_one_decision(ops, Test::Less, whole(0), Formula::Given(peak), lit, bright);
    if lit {
        lemma_one_value(ops, Formula::Given(amplitude).over(Formula::Given(peak)), scale, factor);
        lemma_one_map(ops, multiplied(scale), raw, a, b);
    }
}

/// There is one sky gradient of an amplitude.
proof fn lemma_one_sky<T, A: Arithmetic<T>>(
    ops: &A,
    w: int,
    h: int,
    amplitude: T,
    a: Seq<T>,
    b: Seq<T>,
)
    requires
        is_deterministic(ops),
        is_sky_gradient(ops, w, h, amplitude, a),
        is_sky_gradient(ops, w, h, amplitude, b),
    ensures
        a == b,
{
    let (s, m, steep) = choose|raw: Seq<T>, summit: T, steep: bool| #[trigger]
        is_slope(ops, w, h, raw, summit, steep) && if steep {
            maps(ops, tilted(amplitude, summit), raw, a)
        } else {
            a == Seq::new(raw.len(), |i: int| amplitude)
        };
    let (t, n, sheer) = choose|raw: Seq<T>, summit: T, steep: bool| #[trigger]
        is_slope(ops, w, h, raw, summit, steep) && if steep {
            maps(ops, tilted(amplitude, summit), raw, b)
        } else {
            b == Seq::new(raw.len(), |i: int| amplitude)
        };
    lemma_one_sequence(ops, |i: int| tilt(w, h, i), s, t);
    lemma_one_value(ops, summit_of(s, s.len() as int), m, n);
    lemma_one_decision(ops, Test::Less, whole(0), Formula::Given(m), steep, sheer);
    if steep {
        lemma_one_map(ops, tilted(amplitude, m), s, a, b);
    }
}

/// Two planes have one sum.
proof fn lemma_one_sum<T, A: Arithmetic<T>>(
    ops: &A,
    p: Seq<T>,
    q: Seq<T>,
    a: Seq<T>,
    b: Seq<T>,
)
    requires
        is_deterministic(ops),
        is_sum(ops, p, q, a),
        is_sum(ops, p, q, b),
    ensures
        a == b,
{
    lemma_one_sequence(ops, |i: int| Formula::Given(p[i]).plus(Formula::Given(q[i])), a, b);
}

/// A plane has one plane with the sky gradient added.
proof fn lemma_one_gradient_added<T, A: Arithmetic<T>>(
    ops: &A,
    params: SyntheticParams<T>,
    plane: Seq<T>,
    a: Seq<T>,
    b: Seq<T>,
)
    requires
        is_deterministic(ops),
        adds_gradient(ops, params, plane, a),
        adds_gradient(ops, params, plane, b),
    ensures
        a == b,
{
    let w = params.width as int;
    let h = params.height as int;
    let amplitude = params.gradient_amplitude;
    let p = choose|lit: bool| #[trigger]
        decides(ops, Test::Less, whole(0), Formula::Given(params.gradient_amplitude), lit)
            && if lit {
            exists|sky: Seq<T>| #[trigger]
                is_sky_gradient(ops, w, h, amplitude, sky) && is_sum(ops, plane, sky, a)
        } else {
            a == plane
        };
    let q = choose|lit: bool| #[trigger]
        decides(ops, Test::Less, whole(0), Formula::Given(params.gradient_amplitude), lit)
            && if lit {
            exists|sky: Seq<T>| #[trigger]
                is_sky_gradient(ops, w, h, amplitude, sky) && is_sum(ops, plane, sky, b)
        } else {
            b == plane
        };
    lemma_one_decision(ops, Test::Less, whole(0), Formula::Given(amplitude), p, q);
    if p {
        let s = choose|sky: Seq<T>| #[trigger]
            is_sky_gradient(ops, w, h, amplitude, sky) && is_sum(ops, plane, sky, a);
        let t = choose|sky: Seq<T>| #[trigger]
            is_sky_gradient(ops, w, h, amplitude, sky) && is_sum(ops, plane, sky, b);
        lemma_one_sky(ops, w, h, amplitude, s, t);
        lemma_one_sum(ops, plane, s, a, b);
    }
}

/// Stars have one noise-free signal.
proof fn lemma_one_signal<T, A: Arithmetic<T>>(
    ops: &A,
    params: SyntheticParams<T>,
    stars: Seq<Star<T>>,
    lit: bool,
    a: Seq<T>,
    bright: bool,
    b: Seq<T>,
)
    requires
        is_deterministic(ops),
        is_signal(ops, params, stars, lit, a),
        is_signal(ops, params, stars, bright, b),
    ensures
        lit == bright,
        a == b,
{
    let w = params.width as int;
    let h = params.height as int;
    let (p, c, s) = choose|points: Seq<T>, clouded: Seq<T>, sloped: Seq<T>| #[trigger]
        is_signal_by(ops, params, stars, points, lit, clouded, sloped, a);
    let (q, d, t) = choose|points: Seq<T>, clouded: Seq<T>, sloped: Seq<T>| #[trigger]
        is_signal_by(ops, params, stars, points, bright, clouded, sloped, b);
    lemma_one_star_plane(ops, w, h, stars, params.psf_sigma, p, q);
    lemma_one_decision(
        ops,
        Test::Less,
        whole(0),
        Formula::Given(params.nebula_amplitude),
        lit,
        bright,
    );
    if lit {
        let start = 3 * params.n_stars as nat;
        let m = choose|nebula: Seq<T>| #[trigger]
            is_nebula(
                ops,
                params.width,
                params.height,
                params.nebula_amplitude,
                params.seed,
                start,
                nebula,
            ) && is_sum(ops, p, nebula, c);
        let n = choose|nebula: Seq<T>| #[trigger]
            is_nebula(
                ops,
                params.width,
                params.height,
                params.nebula_amplitude,
                params.seed,
                start,
                nebula,
            ) && is_sum(ops, p, nebula, d);
        lemma_one_nebula(
            ops,
            params.width,
            params.height,
            params.nebula_amplitude,
            params.seed,
            start,
            m,
            n,
        );
        lemma_one_sum(ops, p, m, c, d);
    }
    lemma_one_gradient_added(ops, params, c, s, t);
    lemma_one_map(ops, lifted(params.background), s, a, b);
}

/// A signal has one noise-free image.
proof fn lemma_one_clean_image<T, A: Arithmetic<T>>(
    ops: &A,
    params: SyntheticParams<T>,
    signal: Seq<T>,
    a: Raster<T>,
    b: Raster<T>,
)
    requires
        is_deterministic(ops),
        is_clean(ops, params, signal, a),
        is_clean(ops, params, signal, b),
    ensures
        a == b,
{
    let s = choose|flat: Raster<T>| #[trigger]
        is_spread(ops, params, signal, flat) && is_edged(ops, params.dark_edges, flat, a);
    let t = choose|flat: Raster<T>| #[trigger]
        is_spread(ops, params, signal, flat) && is_edged(ops, params.dark_edges, flat, b);
    if params.rgb {
        let balance = params.channel_balance;
        lemma_one_map(ops, multiplied(balance.0), signal, s.planes[0], t.planes[0]);
        lemma_one_map(ops, multiplied(balance.1), signal, s.planes[1], t.planes[1]);
        lemma_one_map(ops, multiplied(balance.2), signal, s.planes[2], t.planes[2]);
        assert(s.planes =~= t.planes);
    }
    let edges = params.dark_edges;
    if edges != (0usize, 0usize, 0usize, 0usize) {
        let w = s.width as int;
        let h = s.height as int;
        assert forall|c: int| 0 <= c < a.planes.len() implies #[trigger] a.planes[c]
            == b.planes[c] by {
            assert(is_edged_plane(ops, edges, w, h, s.planes[c], a.planes[c]));
            assert(is_edged_plane(ops, edges, w, h, s.planes[c], b.planes[c]));
            lemma_one_sequence(
                ops,
                |i: int|
                    Formula::Given(s.planes[c][i]).times(
                        if in_dark_edge(edges, w, h, i) {
                            Formula::Ratio(2, 100)
                        } else {
                            whole(1)
                        },
                    ),
                a.planes[c],
                b.planes[c],
            );
        }
        assert(a.planes =~= b.planes);
    }
}

/// A noise-free image has one observed image.
proof fn lemma_one_observation<T, A: Arithmetic<T>>(
    ops: &A,
    params: SyntheticParams<T>,
    start: nat,
    clean: Raster<T>,
    a: Raster<T>,
    b: Raster<T>,
)
    requires
        is_deterministic(ops),
        is_observed(ops, params, start, clean, a),
        is_observed(ops, params, start, clean, b),
    ensures
        a == b,
{
    let seed = params.seed;
    let (noisy, rough, hot) = choose|noisy: bool, rough: Raster<T>, hot: T|
        is_noisy(ops, params.noise_sigma, params.seed, start, clean, noisy, rough)
            && #[trigger] is_finished(
            ops,
            params,
            draws_before_hot(start, clean.samples(), noisy),
            hot,
            rough,
            a,
        );
    let (loud, grain, warm) = choose|noisy: bool, rough: Raster<T>, hot: T|
        is_noisy(ops, params.noise_sigma, params.seed, start, clean, noisy, rough)
            && #[trigger] is_finished(
            ops,
            params,
            draws_before_hot(start, clean.samples(), noisy),
            hot,
            rough,
            b,
        );
    lemma_one_decision(
        ops,
        Test::Less,
        whole(0),
        Formula::Given(params.noise_sigma),
        noisy,
        loud,
    );
    if noisy {
        assert forall|c: int| 0 <= c < rough.planes.len() implies #[trigger] rough.planes[c]
            == grain.planes[c] by {
            let plane = clean.planes[c];
            let sigma = params.noise_sigma;
            assert(is_noisy_plane(ops, sigma, seed, start, c, plane, rough.planes[c]));
            assert(is_noisy_plane(ops, sigma, seed, start, c, plane, grain.planes[c]));
            lemma_one_sequence(
                ops,
                |i: int|
                    Formula::Given(plane[i]).plus(
                        normal_of(
                            sigma,
                            state_at(seed, noise_draw(start, plane.len(), c, i)),
                        ),
                    ),
                rough.planes[c],
                grain.planes[c],
            );
        }
        assert(rough.planes =~= grain.planes);
    }
    lemma_one_value(
        ops,
        Formula::Given(params.star_amplitude.1).times(Formula::Ratio(15, 10)),
        hot,
        warm,
    );
    let after = draws_before_hot(start, clean.samples(), noisy);
    assert forall|c: int| 0 <= c < a.planes.len() implies #[trigger] a.planes[c]
        == b.planes[c] by {
        let plane = rough.planes[c];
        let count = params.hot_pixels as nat;
        assert(is_hot_plane(ops, params, after, hot, plane, a.planes[c]));
        assert(is_hot_plane(ops, params, after, hot, plane, b.planes[c]));
        lemma_one_sequence(
            ops,
            |i: int|
                Formula::Given(
                    if is_hot(
                        seed,
                        after,
                        count,
                        params.width as int,
                        params.height as int,
                        i,
                        count as int,
                    ) {
                        hot
                    } else {
                        plane[i]
                    },
                ).most(whole(0)),
            a.planes[c],
            b.planes[c],
        );
    }
    assert(a.planes =~= b.planes);
}

/// The same seed always produces the same image: parameters have one star
/// catalog, one noise-free image and one observed image.
pub proof fn lemma_one_test_image<T, A: Arithmetic<T>>(
    ops: &A,
    params: SyntheticParams<T>,
    a: SyntheticImage<T>,
    b: SyntheticImage<T>,
)
    requires
        is_deterministic(ops),
        is_test_image(ops, params, a),
        is_test_image(ops, params, b),
    ensures
        a.data@ == b.data@,
        a.clean@ == b.clean@,
        a.stars@ == b.stars@,
        a.background == b.background,
        a.noise_sigma == b.noise_sigma,
        a.dark_edges == b.dark_edges,
{
    lemma_one_star_field(ops, params, a.stars@, b.stars@);
    let (lit, s) = choose|lit: bool, signal: Seq<T>| #[trigger]
        is_signal(ops, params, a.stars@, lit, signal) && is_clean(
            ops,
            params,
            signal,
            a.clean@,
        ) && is_observed(
            ops,
            params,
            signal_draws(params.n_stars, lit),
            a.clean@,
            a.data@,
        );
    let (bright, t) = choose|lit: bool, signal: Seq<T>| #[trigger]
        is_signal(ops, params, b.stars@, lit, signal) && is_clean(
            ops,
            params,
            signal,
            b.clean@,
        ) && is_observed(
            ops,
            params,
            signal_draws(params.n_stars, lit),
            b.clean@,
            b.data@,
        );
    lemma_one_signal(ops, params, a.stars@, lit, s, bright, t);
    lemma_one_clean_image(ops, params, s, a.clean@, b.clean@);
    lemma_one_observation(
        ops,
        params,
        signal_draws(params.n_stars, lit),
        a.clean@,
        a.data@,
        b.data@,
    );
}

/// Two sets of parameters that differ at most in the noise and in the number of
/// hot pixels.
pub open spec fn show_one_scene<T>(p: SyntheticParams<T>, q: SyntheticParams<T>) -> bool {
    q == (SyntheticParams { noise_sigma: q.noise_sigma, hot_pixels: q.hot_pixels, ..p })
}

/// The star fields of one scene are drawn alike.
proof fn lemma_scene_has_stars<T, A: Arithmetic<T>>(
    ops: &A,
    p: SyntheticParams<T>,
    q: SyntheticParams<T>,
    stars: Seq<Star<T>>,
)
    requires
        show_one_scene(p, q),
        are_stars(ops, q, stars),
    ensures
        are_stars(ops, p, stars),
{
    assert forall|i: int| 0 <= i < stars.len() implies is_star(ops, p, i, #[trigger] stars[i]) by {
        assert(is_star(ops, q, i, stars[i]));
    }
}

/// The noise-free signals of one scene are made alike.
proof fn lemma_scene_has_signal<T, A: Arithmetic<T>>(
    ops: &A,
    p: SyntheticParams<T>,
    q: SyntheticParams<T>,
    stars: Seq<Star<T>>,
    lit: bool,
    signal: Seq<T>,
)
    requires
        show_one_scene(p, q),
        is_signal(ops, q, stars, lit, signal),
    ensures
        is_signal(ops, p, stars, lit, signal),
{
    let (points, clouded, sloped) = choose|points: Seq<T>, clouded: Seq<T>, sloped: Seq<T>|
        #[trigger]
        is_signal_by(ops, q, stars, points, lit, clouded, sloped, signal);
    assert(adds_nebula(ops, p, points, lit, clouded));
    assert(adds_gradient(ops, p, clouded, sloped));
    assert(is_signal_by(ops, p, stars, points, lit, clouded, sloped, signal));
}

/// The noise-free images of one scene are made alike.
proof fn lemma_scene_is_clean<T, A: Arithmetic<T>>(
    ops: &A,
    p: SyntheticParams<T>,
    q: SyntheticParams<T>,
    signal: Seq<T>,
    clean: Raster<T>,
)
    requires
        show_one_scene(p, q),
        is_clean(ops, q, signal, clean),
    ensures
        is_clean(ops, p, signal, clean),
{
    let flat = choose|flat: Raster<T>| #[trigger]
        is_spread(ops, q, signal, flat) && is_edged(ops, q.dark_edges, flat, clean);
    assert(is_spread(ops, p, signal, flat));
}

/// Noise and hot pixels never reach the clean reference: scenes that differ in
/// nothing else have the same star catalog and the same noise-free image.
pub proof fn lemma_clean_image_of_scene<T, A: Arithmetic<T>>(
    ops: &A,
    p: SyntheticParams<T>,
    q: SyntheticParams<T>,
    a: SyntheticImage<T>,
    b: SyntheticImage<T>,
)
    requires
        is_deterministic(ops),
        show_one_scene(p, q),
        is_test_image(ops, p, a),
        is_test_image(ops, q, b),
    ensures
        a.stars@ == b.stars@,
        a.clean@ == b.clean@,
{
    let (lit, s) = choose|lit: bool, signal: Seq<T>| #[trigger]
        is_signal(ops, p, a.stars@, lit, signal) && is_clean(ops, p, signal, a.clean@)
            && is_observed(ops, p, signal_draws(p.n_stars, lit), a.clean@, a.data@);
    let (bright, t) = choose|lit: bool, signal: Seq<T>| #[trigger]
        is_signal(ops, q, b.stars@, lit, signal) && is_clean(ops, q, signal, b.clean@)
            && is_observed(ops, q, signal_draws(q.n_stars, lit), b.clean@, b.data@);
    lemma_scene_has_stars(ops, p, q, b.stars@);
    lemma_one_star_field(ops, p, a.stars@, b.stars@);
    lemma_scene_has_signal(ops, p, q, b.stars@, bright, t);
    lemma_one_signal(ops, p, a.stars@, lit, s, bright, t);
    lemma_scene_is_clean(ops, p, q, t, b.clean@);
    lemma_one_clean_image(ops, p, s, a.clean@, b.clean@);
}

/// The larger of two samples is not less than the second one.
pub open spec fn most_is_no_less<T, A: Arithmetic<T>>(ops: &A) -> bool {
    forall|x: T, y: T, v: T, r: bool| #[trigger]
        binary_answers(ops, Binary::Most, x, y, v) && #[trigger] test_answers(
            ops,
            Test::Less,
            v,
            y,
            r,
        ) ==> !r
}

/// A test image has the shape that was asked for, and its observed samples are
/// not negative.
pub proof fn lemma_observed_is_not_negative<T, A: Arithmetic<T>>(
    ops: &A,
    params: SyntheticParams<T>,
    out: SyntheticImage<T>,
    c: int,
    i: int,
    r: bool,
)
    requires
        is_deterministic(ops),
        most_is_no_less(ops),
        is_test_image(ops, params, out),
        0 <= c < out.data@.planes.len(),
        0 <= i < out.data@.planes[c].len(),
        decides(ops, Test::Less, Formula::Given(out.data@.planes[c][i]), whole(0), r),
    ensures
        out.data@.width == params.width,
        out.data@.height == params.height,
        out.data@.planes.len() == if params.rgb {
            3nat
        } else {
            1
        },
        out.data@.same_shape(out.clean@),
        !r,
{
    let (lit, signal) = choose|lit: bool, signal: Seq<T>| #[trigger]
        is_signal(ops, params, out.stars@, lit, signal) && is_clean(
            ops,
            params,
            signal,
            out.clean@,
        ) && is_observed(
            ops,
            params,
            signal_draws(params.n_stars, lit),
            out.clean@,
            out.data@,
        );
    let start = signal_draws(params.n_stars, lit);
    let (noisy, rough, hot) = choose|noisy: bool, rough: Raster<T>, hot: T|
        is_noisy(ops, params.noise_sigma, params.seed, start, out.clean@, noisy, rough)
            && #[trigger] is_finished(
            ops,
            params,
            draws_before_hot(start, out.clean@.samples(), noisy),
            hot,
            rough,
            out.data@,
        );
    let after = draws_before_hot(start, out.clean@.samples(), noisy);
    let v = out.data@.planes[c][i];
    assert(is_hot_plane(ops, params, after, hot, rough.planes[c], out.data@.planes[c]));
    let count = params.hot_pixels as nat;
    let shown = Formula::Given(
        if is_hot(
            params.seed,
            after,
            count,
            params.width as int,
            params.height as int,
            i,
            count as int,
        ) {
            hot
        } else {
            rough.planes[c][i]
        },
    );
    assert(evals(ops, shown.most(whole(0)), v));
    let (x, y) = choose|x: T, y: T|
        evals(ops, shown, x) && evals(ops, whole(0), y) && #[trigger] binary_answers(
            ops,
            Binary::Most,
            x,
            y,
            v,
        );
    let (u, z) = choose|u: T, z: T|
        evals(ops, Formula::Given(v), u) && evals(ops, whole(0), z) && #[trigger] test_answers(
            ops,
            Test::Less,
            u,
            z,
            r,
        );
    lemma_one_value(ops, whole(0), y, z);
}

} // verus!
