//! Synthetic astrophotography test images with known ground truth.
//!
//! Generates realistic linear "FITS-like" data (star field, nebulosity, sky
//! gradient, read noise, dark stacking edges, hot pixels) so that stretching,
//! autocrop, gradient removal, and denoising can be tested against a
//! noise-free reference.

use crate::arith::{
    Arithmetic, Binary, Formula, Sample, Test, Traced, Unary, decides, evals, offsets, whole,
};
use crate::gradient::last_pixel;
use crate::frame::{Image, Raster};
use crate::parallel::par_map;
use crate::plane::{
    copied, filled, largest, largest_of, lemma_pixel, lemma_place, map_plane, maps,
};
use vstd::prelude::*;

verus! {

/// One generated star: position and peak amplitude.
#[derive(Debug, PartialEq)]
pub struct Star<T> {
    pub x: T,
    pub y: T,
    pub amplitude: T,
}

impl<T: Copy> Clone for Star<T> {
    fn clone(&self) -> (r: Self)
        ensures
            r == *self,
    {
        *self
    }
}

impl<T: Copy> Copy for Star<T> {

}

/// A generated test image plus the ground truth used to build it.
#[derive(Debug)]
pub struct SyntheticImage<T> {
    /// Observed image (signal + noise + artifacts). Linear, in raw ADU-like
    /// units.
    pub data: Image<T>,
    /// Noise-free signal (stars + nebula + background + gradient, with dark
    /// edges applied). Same shape as `data`.
    pub clean: Image<T>,
    /// Star catalog with per-star peak amplitude.
    pub stars: Vec<Star<T>>,
    /// Sky background level in ADU.
    pub background: T,
    /// Gaussian read-noise sigma in ADU.
    pub noise_sigma: T,
    /// `(top, bottom, left, right)` dark edge widths in pixels.
    pub dark_edges: (usize, usize, usize, usize),
}

impl<T: Copy> Clone for SyntheticImage<T> {
    fn clone(&self) -> (r: Self)
        ensures
            r.data@ == self.data@,
            r.clean@ == self.clean@,
            r.stars@ == self.stars@,
            r.background == self.background,
            r.noise_sigma == self.noise_sigma,
            r.dark_edges == self.dark_edges,
    {
        SyntheticImage {
            data: self.data.clone(),
            clean: self.clean.clone(),
            stars: copied(self.stars.as_slice()),
            background: self.background,
            noise_sigma: self.noise_sigma,
            dark_edges: self.dark_edges,
        }
    }
}

/// Configuration for [`make_test_image`]. Start from
/// [`SyntheticParams::defaults`] and override fields.
#[derive(Debug)]
pub struct SyntheticParams<T> {
    pub height: usize,
    pub width: usize,
    /// Produce an RGB image with a color cast set by `channel_balance`
    /// (exercises linked-channel background neutralization).
    pub rgb: bool,
    /// Number of stars, log-uniform amplitudes.
    pub n_stars: usize,
    /// Gaussian PSF sigma in pixels.
    pub psf_sigma: T,
    /// `(min, max)` star peak amplitude in ADU.
    pub star_amplitude: (T, T),
    /// Sky background level in ADU.
    pub background: T,
    /// Gaussian read-noise sigma in ADU. 0 disables noise.
    pub noise_sigma: T,
    /// Peak amplitude of a smooth linear+bilinear sky gradient in ADU. 0
    /// disables.
    pub gradient_amplitude: T,
    /// Peak amplitude of smooth large-scale nebulosity in ADU. 0 disables.
    pub nebula_amplitude: T,
    /// `(top, bottom, left, right)` widths of dark stacking edges to simulate
    /// (signal multiplied by 0.02 there).
    pub dark_edges: (usize, usize, usize, usize),
    /// Number of isolated hot pixels added to the observed data (not the clean
    /// reference).
    pub hot_pixels: usize,
    /// Per-channel signal multipliers for RGB images.
    pub channel_balance: (T, T, T),
    /// RNG seed; the same seed always produces the same image.
    pub seed: u64,
}

impl<T: Copy> Clone for SyntheticParams<T> {
    fn clone(&self) -> (r: Self)
        ensures
            r == *self,
    {
        *self
    }
}

impl<T: Copy> Copy for SyntheticParams<T> {

}

impl<T: Sample> SyntheticParams<T> {
    /// A mono frame of 256 by 256 pixels with 80 stars over a noisy sky.
    pub fn defaults<A: Arithmetic<T>>(ops: &A) -> (r: Self)
        ensures
            r.height == 256,
            r.width == 256,
            !r.rgb,
            r.n_stars == 80,
            evals(ops, Formula::Ratio(16, 10), r.psf_sigma),
            evals(ops, whole(200), r.star_amplitude.0),
            evals(ops, whole(40000), r.star_amplitude.1),
            evals(ops, whole(800), r.background),
            evals(ops, whole(15), r.noise_sigma),
            evals(ops, whole(0), r.gradient_amplitude),
            evals(ops, whole(0), r.nebula_amplitude),
            r.dark_edges == (0usize, 0usize, 0usize, 0usize),
            r.hot_pixels == 0,
            evals(ops, whole(1), r.channel_balance.0),
            evals(ops, Formula::Ratio(85, 100), r.channel_balance.1),
            evals(ops, Formula::Ratio(7, 10), r.channel_balance.2),
            r.seed == 0,
    {
        SyntheticParams {
            height: 256,
            width: 256,
            rgb: false,
            n_stars: 80,
            psf_sigma: ops.ratio(16, 10),
            star_amplitude: (ops.ratio(200, 1), ops.ratio(40000, 1)),
            background: ops.ratio(800, 1),
            noise_sigma: ops.ratio(15, 1),
            gradient_amplitude: ops.ratio(0, 1),
            nebula_amplitude: ops.ratio(0, 1),
            dark_edges: (0, 0, 0, 0),
            hot_pixels: 0,
            channel_balance: (ops.ratio(1, 1), ops.ratio(85, 100), ops.ratio(7, 10)),
            seed: 0,
        }
    }
}

// ---------------------------------------------------------------------------
// Random numbers
// ---------------------------------------------------------------------------

/// The state after one draw.
pub open spec fn advance(state: u64) -> u64 {
    state.wrapping_add(0x9E37_79B9_7F4A_7C15)
}

/// The output that a state is mixed into.
pub open spec fn mix(state: u64) -> u64 {
    let a = (state ^ (state >> 30)).wrapping_mul(0xBF58_476D_1CE4_E5B9);
    let b = (a ^ (a >> 27)).wrapping_mul(0x94D0_49BB_1331_11EB);
    b ^ (b >> 31)
}

/// The number drawn in a state.
pub open spec fn drawn(state: u64) -> u64 {
    mix(advance(state))
}

/// The state after `k` draws.
pub open spec fn state_at(seed: u64, k: nat) -> u64
    decreases k,
{
    if k == 0 {
        seed
    } else {
        advance(state_at(seed, (k - 1) as nat))
    }
}

/// A draw from the unit range, in steps of two to the power of -53.
pub open spec fn unit_of<T>(state: u64) -> Formula<T> {
    Formula::Ratio(drawn(state) >> 11, 0x20_0000_0000_0000)
}

/// A draw from the range between two values.
pub open spec fn uniform_of<T>(lo: Formula<T>, hi: Formula<T>, state: u64) -> Formula<T> {
    lo.plus(hi.minus(lo).times(unit_of(state)))
}

/// A zero-mean Gaussian draw, from two draws from the unit range.
pub open spec fn normal_of<T>(sigma: T, state: u64) -> Formula<T> {
    let u1 = whole(1).minus(unit_of(state));
    let u2 = unit_of(advance(state));
    Formula::Given(sigma).times(
        whole(2).apply(Unary::Neg).times(u1.apply(Unary::Ln)).apply(Unary::Sqrt),
    ).times(Formula::Turn.times(u2).apply(Unary::Cos))
}

/// Deterministic RNG (SplitMix64 + Box-Muller). Not cryptographic: the same
/// seed yields bit-identical draws on every platform, forever.
pub struct Rng {
    state: u64,
}

impl View for Rng {
    type V = u64;

    closed spec fn view(&self) -> u64 {
        self.state
    }
}

impl Rng {
    pub fn new(seed: u64) -> (r: Self)
        ensures
            r@ == seed,
    {
        Rng { state: seed }
    }

    pub fn next_u64(&mut self) -> (r: u64)
        ensures
            final(self)@ == advance(old(self)@),
            r == drawn(old(self)@),
    {
        self.state = self.state.wrapping_add(0x9E37_79B9_7F4A_7C15);
        let mut z: u64 = self.state;
        z = (z ^ (z >> 30)).wrapping_mul(0xBF58_476D_1CE4_E5B9);
        z = (z ^ (z >> 27)).wrapping_mul(0x94D0_49BB_1331_11EB);
        z ^ (z >> 31)
    }

    /// Uniform in [0, 1) with 53 bits of precision.
    fn unit<T: Sample, A: Arithmetic<T>>(&mut self, ops: &A) -> (r: Traced<T>)
        ensures
            final(self)@ == advance(old(self)@),
            r.holds(ops),
            r.formula@ == unit_of::<T>(old(self)@),
    {
        let next = self.next_u64();
        Traced::ratio(ops, next >> 11, 0x20_0000_0000_0000)
    }

    /// Uniform between two values.
    fn uniform<T: Sample, A: Arithmetic<T>>(
        &mut self,
        ops: &A,
        lo: Traced<T>,
        hi: Traced<T>,
    ) -> (r: Traced<T>)
        requires
            lo.holds(ops),
            hi.holds(ops),
        ensures
            final(self)@ == advance(old(self)@),
            r.holds(ops),
            r.formula@ == uniform_of(lo.formula@, hi.formula@, old(self)@),
    {
        let u = self.unit(ops);
        lo.plus(ops, hi.minus(ops, lo).times(ops, u))
    }

    /// Zero-mean Gaussian via Box-Muller.
    fn normal<T: Sample, A: Arithmetic<T>>(&mut self, ops: &A, sigma: T) -> (r: Traced<T>)
        ensures
            final(self)@ == advance(advance(old(self)@)),
            r.holds(ops),
            r.formula@ == normal_of(sigma, old(self)@),
    {
        // (0, 1] keeps the logarithm finite
        let u1 = Traced::whole(ops, 1).minus(ops, self.unit(ops));
        let u2 = self.unit(ops);
        let minus_two = Traced::whole(ops, 2).apply(ops, Unary::Neg);
        let radius = minus_two.times(ops, u1.apply(ops, Unary::Ln)).apply(ops, Unary::Sqrt);
        let angle = Traced::turn(ops).times(ops, u2).apply(ops, Unary::Cos);
        Traced::given(ops, sigma).times(ops, radius).times(ops, angle)
    }

    /// Uniform integer in [0, n).
    pub fn below(&mut self, n: usize) -> (r: usize)
        requires
            n > 0,
        ensures
            final(self)@ == advance(old(self)@),
            r == drawn(old(self)@) as int % n as int,
            r < n,
    {
        let next = self.next_u64();
        (next % (n as u64)) as usize
    }
}

/// The state after `k` draws is the seed plus `k` steps, modulo two to the
/// power of 64.
pub proof fn lemma_state_at(seed: u64, k: nat)
    ensures
        state_at(seed, k) == (seed + k * 0x9E37_79B9_7F4A_7C15) % 0x1_0000_0000_0000_0000,
    decreases k,
{
    if k > 0 {
        lemma_state_at(seed, (k - 1) as nat);
        let m: int = 0x1_0000_0000_0000_0000;
        let g: int = 0x9E37_79B9_7F4A_7C15;
        let a = seed + (k - 1) * g;
        assert(seed + k * g == a + g) by (nonlinear_arith)
            requires
                a == seed + (k - 1) * g,
        ;
        vstd::arithmetic::div_mod::lemma_add_mod_noop(a, g, m);
        vstd::arithmetic::div_mod::lemma_mod_twice(a, m);
        vstd::arithmetic::div_mod::lemma_add_mod_noop(a % m, g, m);
        let s = state_at(seed, (k - 1) as nat);
        assert(s == a % m);
        assert(advance(s) == (s + g) % m) by {
            if s + g < m {
                vstd::arithmetic::div_mod::lemma_small_mod((s + g) as nat, m as nat);
            } else {
                vstd::arithmetic::div_mod::lemma_fundamental_div_mod_converse(
                    s + g,
                    m,
                    1,
                    s + g - m,
                );
            }
        }
    }
}

/// No state comes twice within two to the power of 64 draws.
pub proof fn lemma_states_differ(seed: u64, i: nat, j: nat)
    requires
        i < j < i + 0x1_0000_0000_0000_0000,
    ensures
        state_at(seed, i) != state_at(seed, j),
{
    let m: int = 0x1_0000_0000_0000_0000;
    let g: int = 0x9E37_79B9_7F4A_7C15;
    // The inverse of the step modulo m
    let inverse: int = 0xF1DE_83E1_9937_733D;
    let turns: int = 0x957B_BF35_006E_D677;
    assert(g * inverse == 1 + turns * m);
    lemma_state_at(seed, i);
    lemma_state_at(seed, j);
    if state_at(seed, i) == state_at(seed, j) {
        let d = j - i;
        let from = seed + i * g;
        let to = seed + j * g;
        vstd::arithmetic::div_mod::lemma_fundamental_div_mod(from, m);
        vstd::arithmetic::div_mod::lemma_fundamental_div_mod(to, m);
        let q = to / m - from / m;
        vstd::arithmetic::mul::lemma_mul_is_distributive_sub_other_way(g, j as int, i as int);
        vstd::arithmetic::mul::lemma_mul_is_distributive_sub(m, to / m, from / m);
        assert(d * g == m * q);
        lemma_inverse_divides(d, g, q, m, inverse, turns);
    }
}

/// A number between 0 and `m`, times one that has an inverse modulo `m`, is no
/// multiple of `m`.
proof fn lemma_inverse_divides(d: int, g: int, q: int, m: int, inverse: int, turns: int)
    by (nonlinear_arith)
    requires
        0 < d < m,
        g * inverse == 1 + turns * m,
    ensures
        d * g != m * q,
{
    let s = q * inverse - d * turns;
    assert((d * g) * inverse == d * (g * inverse));
    assert((m * q) * inverse == m * (q * inverse));
    assert(d * (1 + turns * m) == d + m * (d * turns));
    assert(m * s == m * (q * inverse) - m * (d * turns));
    assert(s <= 0 ==> m * s <= 0);
    assert(s >= 1 ==> m * s >= m);
}

// ---------------------------------------------------------------------------
// Stars
// ---------------------------------------------------------------------------

/// The margin that keeps star cores inside the frame.
pub open spec fn margin_of<T>(psf_sigma: T) -> Formula<T> {
    whole(4).times(Formula::Given(psf_sigma))
}

/// Star `i` of the field: positions uniform inside the margin, the amplitude
/// log-uniform.
pub open spec fn is_star<T, A: Arithmetic<T>>(
    ops: &A,
    params: SyntheticParams<T>,
    i: int,
    star: Star<T>,
) -> bool {
    let n = params.n_stars as int;
    let margin = margin_of(params.psf_sigma);
    &&& evals(
        ops,
        uniform_of(
            margin,
            Formula::Count(params.width).minus(margin),
            state_at(params.seed, i as nat),
        ),
        star.x,
    )
    &&& evals(
        ops,
        uniform_of(
            margin,
            Formula::Count(params.height).minus(margin),
            state_at(params.seed, (n + i) as nat),
        ),
        star.y,
    )
    &&& evals(
        ops,
        uniform_of(
            Formula::Given(params.star_amplitude.0).apply(Unary::Ln),
            Formula::Given(params.star_amplitude.1).apply(Unary::Ln),
            state_at(params.seed, (2 * n + i) as nat),
        ).apply(Unary::Exp),
        star.amplitude,
    )
}

/// The star field.
pub open spec fn are_stars<T, A: Arithmetic<T>>(
    ops: &A,
    params: SyntheticParams<T>,
    stars: Seq<Star<T>>,
) -> bool {
    &&& stars.len() == params.n_stars
    &&& forall|i: int| 0 <= i < stars.len() ==> is_star(ops, params, i, #[trigger] stars[i])
}

/// Uniform positions inside the margin of one dimension.
fn draw_positions<T: Sample, A: Arithmetic<T>>(
    ops: &A,
    rng: &mut Rng,
    size: usize,
    params: &SyntheticParams<T>,
    Ghost(start): Ghost<nat>,
) -> (out: Vec<T>)
    requires
        old(rng)@ == state_at(params.seed, start),
    ensures
        final(rng)@ == state_at(params.seed, start + params.n_stars as nat),
        out@.len() == params.n_stars,
        forall|i: int|
            0 <= i < out@.len() ==> evals(
                ops,
                uniform_of(
                    margin_of(params.psf_sigma),
                    Formula::Count(size).minus(margin_of(params.psf_sigma)),
                    state_at(params.seed, (start + i) as nat),
                ),
                #[trigger] out@[i],
            ),
{
    let margin = Traced::whole(ops, 4).times(ops, Traced::given(ops, params.psf_sigma));
    let end = Traced::count(ops, size).minus(ops, margin);
    let mut out: Vec<T> = Vec::with_capacity(params.n_stars);
    let mut i: usize = 0;
    while i < params.n_stars
        invariant
            i <= params.n_stars,
            margin.holds(ops),
            end.holds(ops),
            margin.formula@ == margin_of(params.psf_sigma),
            end.formula@ == Formula::Count(size).minus(margin_of(params.psf_sigma)),
            rng@ == state_at(params.seed, start + i as nat),
            out@.len() == i,
            forall|k: int|
                0 <= k < i ==> evals(
                    ops,
                    uniform_of(
                        margin_of(params.psf_sigma),
                        Formula::Count(size).minus(margin_of(params.psf_sigma)),
                        state_at(params.seed, (start + k) as nat),
                    ),
                    #[trigger] out@[k],
                ),
        decreases params.n_stars - i,
    {
        out.push(rng.uniform(ops, margin, end).value);
        i += 1;
    }
    out
}

/// The star field.
fn draw_stars<T: Sample, A: Arithmetic<T>>(
    ops: &A,
    rng: &mut Rng,
    params: &SyntheticParams<T>,
) -> (stars: Vec<Star<T>>)
    requires
        old(rng)@ == params.seed,
    ensures
        final(rng)@ == state_at(params.seed, 3 * params.n_stars as nat),
        are_stars(ops, *params, stars@),
{
    let n = params.n_stars;
    let xs = draw_positions(ops, rng, params.width, params, Ghost(0nat));
    let ys = draw_positions(ops, rng, params.height, params, Ghost(n as nat));
    let faint = Traced::given(ops, params.star_amplitude.0).apply(ops, Unary::Ln);
    let bright = Traced::given(ops, params.star_amplitude.1).apply(ops, Unary::Ln);
    let mut stars: Vec<Star<T>> = Vec::with_capacity(n);
    let mut i: usize = 0;
    while i < n
        invariant
            n == params.n_stars,
            i <= n,
            xs@.len() == n,
            ys@.len() == n,
            faint.holds(ops),
            bright.holds(ops),
            faint.formula@ == Formula::Given(params.star_amplitude.0).apply(Unary::Ln),
            bright.formula@ == Formula::Given(params.star_amplitude.1).apply(Unary::Ln),
            rng@ == state_at(params.seed, 2 * n as nat + i as nat),
            stars@.len() == i,
            forall|k: int|
                0 <= k < n ==> evals(
                    ops,
                    uniform_of(
                        margin_of(params.psf_sigma),
                        Formula::Count(params.width).minus(margin_of(params.psf_sigma)),
                        state_at(params.seed, k as nat),
                    ),
                    #[trigger] xs@[k],
                ),
            forall|k: int|
                0 <= k < n ==> evals(
                    ops,
                    uniform_of(
                        margin_of(params.psf_sigma),
                        Formula::Count(params.height).minus(margin_of(params.psf_sigma)),
                        state_at(params.seed, (n + k) as nat),
                    ),
                    #[trigger] ys@[k],
                ),
            forall|k: int| 0 <= k < i ==> is_star(ops, *params, k, #[trigger] stars@[k]),
        decreases n - i,
    {
        let amplitude = rng.uniform(ops, faint, bright).apply(ops, Unary::Exp).value;
        let star = Star { x: xs[i], y: ys[i], amplitude };
        assert(is_star(ops, *params, i as int, star));
        stars.push(star);
        i += 1;
    }
    stars
}

/// Twice the variance of a Gaussian.
pub open spec fn spread_of<T>(sigma: T) -> Formula<T> {
    whole(2).times(Formula::Given(sigma)).times(Formula::Given(sigma))
}

/// The squared distance of pixel `k` from `center` in one direction.
pub open spec fn offset_squared<T>(k: int, center: T) -> Formula<T> {
    let d = Formula::Count(k as usize).minus(Formula::Given(center));
    d.times(d)
}

/// The light of a Gaussian source at a pixel.
pub open spec fn glow<T>(
    amplitude: T,
    cx: T,
    cy: T,
    sigma: T,
    x: int,
    y: int,
) -> Formula<T> {
    Formula::Given(amplitude).times(
        offset_squared(x, cx).plus(offset_squared(y, cy)).apply(Unary::Neg).over(
            spread_of(sigma),
        ).apply(Unary::Exp),
    )
}

/// The light of a Gaussian source at a pixel.
fn glow_at<T: Sample, A: Arithmetic<T>>(
    ops: &A,
    amplitude: T,
    cx: T,
    cy: T,
    sigma: T,
    x: usize,
    y: usize,
) -> (r: Traced<T>)
    ensures
        r.holds(ops),
        r.formula@ == glow(amplitude, cx, cy, sigma, x as int, y as int),
{
    let width = Traced::given(ops, sigma);
    let spread = Traced::whole(ops, 2).times(ops, width).times(ops, width);
    let dx = Traced::count(ops, x).minus(ops, Traced::given(ops, cx));
    let dy = Traced::count(ops, y).minus(ops, Traced::given(ops, cy));
    let distance = dx.times(ops, dx).plus(ops, dy.times(ops, dy));
    let fall = distance.apply(ops, Unary::Neg).over(ops, spread).apply(ops, Unary::Exp);
    Traced::given(ops, amplitude).times(ops, fall)
}

/// The whole pixels that the stars fall into.
pub open spec fn are_anchors<T, A: Arithmetic<T>>(
    ops: &A,
    stars: Seq<Star<T>>,
    anchors: Seq<(i64, i64)>,
) -> bool {
    &&& anchors.len() == stars.len()
    &&& forall|i: int|
        0 <= i < stars.len() ==> is_anchor(ops, stars[i], #[trigger] anchors[i])
}

/// The whole pixel that a star falls into.
pub open spec fn is_anchor<T, A: Arithmetic<T>>(
    ops: &A,
    star: Star<T>,
    anchor: (i64, i64),
) -> bool {
    offsets(ops, Formula::Given(star.x), anchor.0) && offsets(
        ops,
        Formula::Given(star.y),
        anchor.1,
    )
}

/// The stamp of a star covers a pixel.
pub open spec fn covers(anchor: (i64, i64), reach: i64, x: int, y: int) -> bool {
    anchor.0 - reach <= x <= anchor.0 + reach && anchor.1 - reach <= y <= anchor.1 + reach
}

/// The light of the first `n` stars at place `i`, added up from zero.
pub open spec fn starlight<T>(
    stars: Seq<Star<T>>,
    anchors: Seq<(i64, i64)>,
    reach: i64,
    sigma: T,
    w: int,
    i: int,
    n: int,
) -> Formula<T>
    decreases n,
{
    if n <= 0 {
        whole(0)
    } else {
        let before = starlight(stars, anchors, reach, sigma, w, i, n - 1);
        let s = stars[n - 1];
        if covers(anchors[n - 1], reach, i % w, i / w) {
            before.plus(glow(s.amplitude, s.x, s.y, sigma, i % w, i / w))
        } else {
            before
        }
    }
}

/// `out` shows the stars, each on a stamp of four sigmas.
pub open spec fn is_star_plane_by<T, A: Arithmetic<T>>(
    ops: &A,
    w: int,
    h: int,
    stars: Seq<Star<T>>,
    sigma: T,
    reach: i64,
    anchors: Seq<(i64, i64)>,
    out: Seq<T>,
) -> bool {
    &&& offsets(ops, whole(4).times(Formula::Given(sigma)).apply(Unary::Ceil), reach)
    &&& are_anchors(ops, stars, anchors)
    &&& out.len() == w * h
    &&& forall|i: int|
        0 <= i < out.len() ==> evals(
            ops,
            starlight(stars, anchors, reach, sigma, w, i, stars.len() as int),
            #[trigger] out[i],
        )
}

/// `out` shows the stars.
pub open spec fn is_star_plane<T, A: Arithmetic<T>>(
    ops: &A,
    w: int,
    h: int,
    stars: Seq<Star<T>>,
    sigma: T,
    out: Seq<T>,
) -> bool {
    exists|reach: i64, anchors: Seq<(i64, i64)>| #[trigger]
        is_star_plane_by(ops, w, h, stars, sigma, reach, anchors, out)
}

/// Whether the stamp of a star covers a pixel.
fn covers_pixel(anchor: (i64, i64), reach: i64, x: usize, y: usize) -> (r: bool)
    ensures
        r == covers(anchor, reach, x as int, y as int),
{
    let px = x as i128;
    let py = y as i128;
    let ax = anchor.0 as i128;
    let ay = anchor.1 as i128;
    let far = reach as i128;
    ax - far <= px && px <= ax + far && ay - far <= py && py <= ay + far
}

/// The light of the stars at one place.
fn starlight_at<T: Sample, A: Arithmetic<T>>(
    ops: &A,
    stars: &Vec<Star<T>>,
    anchors: &Vec<(i64, i64)>,
    reach: i64,
    sigma: T,
    w: usize,
    i: usize,
) -> (r: T)
    requires
        w > 0,
        anchors@.len() == stars@.len(),
    ensures
        evals(
            ops,
            starlight(stars@, anchors@, reach, sigma, w as int, i as int, stars@.len() as int),
            r,
        ),
{
    let x = i % w;
    let y = i / w;
    let mut acc = Traced::whole(ops, 0);
    let mut k: usize = 0;
    while k < stars.len()
        invariant
            anchors@.len() == stars@.len(),
            x == i as int % w as int,
            y == i as int / w as int,
            k <= stars@.len(),
            acc.holds(ops),
            acc.formula@ == starlight(
                stars@,
                anchors@,
                reach,
                sigma,
                w as int,
                i as int,
                k as int,
            ),
        decreases stars@.len() - k,
    {
        if covers_pixel(anchors[k], reach, x, y) {
            let star = stars[k];
            acc = acc.plus(ops, glow_at(ops, star.amplitude, star.x, star.y, sigma, x, y));
        }
        k += 1;
    }
    acc.value
}

/// Render Gaussian point sources onto a zero image. Each source is drawn on a
/// small stamp (+-4 sigma) for speed.
fn render_gaussians<T: Sample, A: Arithmetic<T>>(
    ops: &A,
    w: usize,
    h: usize,
    stars: &Vec<Star<T>>,
    sigma: T,
) -> (out: Vec<T>)
    requires
        w * h <= usize::MAX,
    ensures
        is_star_plane(ops, w as int, h as int, stars@, sigma, out@),
{
    let radius = Traced::whole(ops, 4).times(ops, Traced::given(ops, sigma));
    let reach = radius.apply(ops, Unary::Ceil).to_offset(ops);
    let mut anchors: Vec<(i64, i64)> = Vec::with_capacity(stars.len());
    let mut k: usize = 0;
    while k < stars.len()
        invariant
            k <= stars@.len(),
            anchors@.len() == k,
            forall|j: int| 0 <= j < k ==> is_anchor(ops, stars@[j], #[trigger] anchors@[j]),
        decreases stars@.len() - k,
    {
        let xi = Traced::given(ops, stars[k].x).to_offset(ops);
        let yi = Traced::given(ops, stars[k].y).to_offset(ops);
        anchors.push((xi, yi));
        k += 1;
    }
    let n: usize = w * h;
    let at = |i: usize| -> (r: T)
        requires
            i < w * h,
            anchors@.len() == stars@.len(),
        ensures
            evals(
                ops,
                starlight(
                    stars@,
                    anchors@,
                    reach,
                    sigma,
                    w as int,
                    i as int,
                    stars@.len() as int,
                ),
                r,
            ),
    {
        proof {
            lemma_place(i as int, w as int, h as int);
        }
        starlight_at(ops, stars, &anchors, reach, sigma, w, i)
    };
    let out = par_map(n, at);
    assert(is_star_plane_by(ops, w as int, h as int, stars@, sigma, reach, anchors@, out@));
    out
}

// ---------------------------------------------------------------------------
// Nebulosity
// ---------------------------------------------------------------------------

/// One wide Gaussian blob of the nebulosity.
#[derive(Debug, PartialEq)]
pub struct Blob<T> {
    pub x: T,
    pub y: T,
    pub amplitude: T,
    pub sigma: T,
}

impl<T: Copy> Clone for Blob<T> {
    fn clone(&self) -> (r: Self)
        ensures
            r == *self,
    {
        *self
    }
}

impl<T: Copy> Copy for Blob<T> {

}

/// A draw from the middle 60% of a dimension.
pub open spec fn central_of<T>(size: usize, state: u64) -> Formula<T> {
    uniform_of(
        Formula::Ratio(1, 5).times(Formula::Count(size)),
        Formula::Ratio(4, 5).times(Formula::Count(size)),
        state,
    )
}

/// Blob `i` of five, drawn from draw `start` on.
pub open spec fn is_blob<T, A: Arithmetic<T>>(
    ops: &A,
    w: usize,
    h: usize,
    seed: u64,
    start: nat,
    i: int,
    blob: Blob<T>,
) -> bool {
    &&& evals(ops, central_of(w, state_at(seed, (start + i) as nat)), blob.x)
    &&& evals(ops, central_of(h, state_at(seed, (start + 5 + i) as nat)), blob.y)
    &&& evals(
        ops,
        uniform_of(
            Formula::Ratio(3, 10),
            whole(1),
            state_at(seed, (start + 10 + i) as nat),
        ),
        blob.amplitude,
    )
    &&& evals(
        ops,
        uniform_of(
            Formula::Ratio(8, 100),
            Formula::Ratio(25, 100),
            state_at(seed, (start + 15 + i) as nat),
        ).times(
            Formula::Count(
                if w < h {
                    w
                } else {
                    h
                },
            ),
        ),
        blob.sigma,
    )
}

/// The light of the first `n` blobs at place `i`, added up from zero.
pub open spec fn blob_light<T>(blobs: Seq<Blob<T>>, w: int, i: int, n: int) -> Formula<T>
    decreases n,
{
    if n <= 0 {
        whole(0)
    } else {
        let b = blobs[n - 1];
        blob_light(blobs, w, i, n - 1).plus(glow(b.amplitude, b.x, b.y, b.sigma, i % w, i / w))
    }
}

/// A sample times `scale`.
pub open spec fn multiplied<T>(scale: T) -> spec_fn(T) -> Formula<T> {
    |v: T| Formula::Given(v).times(Formula::Given(scale))
}

/// `out` is the nebulosity of these blobs, scaled so that its peak is the
/// amplitude.
pub open spec fn is_nebula_by<T, A: Arithmetic<T>>(
    ops: &A,
    w: int,
    h: int,
    amplitude: T,
    blobs: Seq<Blob<T>>,
    raw: Seq<T>,
    peak: T,
    lit: bool,
    scale: T,
    out: Seq<T>,
) -> bool {
    &&& raw.len() == w * h
    &&& forall|i: int|
        0 <= i < raw.len() ==> evals(
            ops,
            blob_light(blobs, w, i, blobs.len() as int),
            #[trigger] raw[i],
        )
    &&& evals(ops, largest_of(raw, raw.len() as int), peak)
    &&& decides(ops, Test::Less, whole(0), Formula::Given(peak), lit)
    &&& if lit {
        evals(ops, Formula::Given(amplitude).over(Formula::Given(peak)), scale) && maps(
            ops,
            multiplied(scale),
            raw,
            out,
        )
    } else {
        out == raw
    }
}

/// Five blobs, drawn from draw `start` on.
pub open spec fn are_blobs<T, A: Arithmetic<T>>(
    ops: &A,
    w: usize,
    h: usize,
    seed: u64,
    start: nat,
    blobs: Seq<Blob<T>>,
) -> bool {
    &&& blobs.len() == 5
    &&& forall|i: int|
        0 <= i < 5 ==> is_blob(ops, w, h, seed, start, i, #[trigger] blobs[i])
}

/// `out` is smooth large-scale nebulosity, drawn from draw `start` on.
pub open spec fn is_nebula<T, A: Arithmetic<T>>(
    ops: &A,
    w: usize,
    h: usize,
    amplitude: T,
    seed: u64,
    start: nat,
    out: Seq<T>,
) -> bool {
    exists|blobs: Seq<Blob<T>>, raw: Seq<T>, peak: T, lit: bool, scale: T|
        are_blobs(ops, w, h, seed, start, blobs) && #[trigger] is_nebula_by(
            ops,
            w as int,
            h as int,
            amplitude,
            blobs,
            raw,
            peak,
            lit,
            scale,
            out,
        )
}

/// Five draws between two values.
fn draw_five<T: Sample, A: Arithmetic<T>>(
    ops: &A,
    rng: &mut Rng,
    lo: Traced<T>,
    hi: Traced<T>,
    Ghost(seed): Ghost<u64>,
    Ghost(start): Ghost<nat>,
) -> (out: Vec<Traced<T>>)
    requires
        lo.holds(ops),
        hi.holds(ops),
        old(rng)@ == state_at(seed, start),
    ensures
        final(rng)@ == state_at(seed, start + 5),
        out@.len() == 5,
        forall|i: int| 0 <= i < 5 ==> (#[trigger] out@[i]).holds(ops),
        forall|i: int|
            0 <= i < 5 ==> (#[trigger] out@[i]).formula@ == uniform_of(
                lo.formula@,
                hi.formula@,
                state_at(seed, (start + i) as nat),
            ),
{
    let mut out: Vec<Traced<T>> = Vec::with_capacity(5);
    let mut i: usize = 0;
    while i < 5
        invariant
            i <= 5,
            lo.holds(ops),
            hi.holds(ops),
            rng@ == state_at(seed, start + i as nat),
            out@.len() == i,
            forall|k: int| 0 <= k < i ==> (#[trigger] out@[k]).holds(ops),
            forall|k: int|
                0 <= k < i ==> (#[trigger] out@[k]).formula@ == uniform_of(
                    lo.formula@,
                    hi.formula@,
                    state_at(seed, (start + k) as nat),
                ),
        decreases 5 - i,
    {
        out.push(rng.uniform(ops, lo, hi));
        i += 1;
    }
    out
}

/// The blobs of the nebulosity.
fn draw_blobs<T: Sample, A: Arithmetic<T>>(
    ops: &A,
    rng: &mut Rng,
    w: usize,
    h: usize,
    Ghost(seed): Ghost<u64>,
    Ghost(start): Ghost<nat>,
) -> (blobs: Vec<Blob<T>>)
    requires
        old(rng)@ == state_at(seed, start),
    ensures
        final(rng)@ == state_at(seed, start + 20),
        are_blobs(ops, w, h, seed, start, blobs@),
{
    let fifth = Traced::ratio(ops, 1, 5);
    let rest = Traced::ratio(ops, 4, 5);
    let cols = Traced::count(ops, w);
    let rows = Traced::count(ops, h);
    let side = Traced::count(
        ops,
        if w < h {
            w
        } else {
            h
        },
    );
    let xs = draw_five(
        ops,
        rng,
        fifth.times(ops, cols),
        rest.times(ops, cols),
        Ghost(seed),
        Ghost(start),
    );
    let ys = draw_five(
        ops,
        rng,
        fifth.times(ops, rows),
        rest.times(ops, rows),
        Ghost(seed),
        Ghost(start + 5),
    );
    let amps = draw_five(
        ops,
        rng,
        Traced::ratio(ops, 3, 10),
        Traced::whole(ops, 1),
        Ghost(seed),
        Ghost(start + 10),
    );
    let sigmas = draw_five(
        ops,
        rng,
        Traced::ratio(ops, 8, 100),
        Traced::ratio(ops, 25, 100),
        Ghost(seed),
        Ghost(start + 15),
    );
    let mut blobs: Vec<Blob<T>> = Vec::with_capacity(5);
    let mut i: usize = 0;
    while i < 5
        invariant
            i <= 5,
            xs@.len() == 5,
            ys@.len() == 5,
            amps@.len() == 5,
            sigmas@.len() == 5,
            side.holds(ops),
            side.formula@ == Formula::<T>::Count(
                if w < h {
                    w
                } else {
                    h
                },
            ),
            forall|k: int|
                0 <= k < 5 ==> (#[trigger] xs@[k]).holds(ops) && xs@[k].formula@ == central_of::<T>(
                    w,
                    state_at(seed, (start + k) as nat),
                ),
            forall|k: int|
                0 <= k < 5 ==> (#[trigger] ys@[k]).holds(ops) && ys@[k].formula@ == central_of::<T>(
                    h,
                    state_at(seed, (start + 5 + k) as nat),
                ),
            forall|k: int|
                0 <= k < 5 ==> (#[trigger] amps@[k]).holds(ops) && amps@[k].formula@ == uniform_of::<
                    T,
                >(Formula::Ratio(3, 10), whole(1), state_at(seed, (start + 10 + k) as nat)),
            forall|k: int|
                0 <= k < 5 ==> (#[trigger] sigmas@[k]).holds(ops) && sigmas@[k].formula@
                    == uniform_of::<T>(
                    Formula::Ratio(8, 100),
                    Formula::Ratio(25, 100),
                    state_at(seed, (start + 15 + k) as nat),
                ),
            blobs@.len() == i,
            forall|k: int|
                0 <= k < i ==> is_blob(ops, w, h, seed, start, k, #[trigger] blobs@[k]),
        decreases 5 - i,
    {
        let sigma = sigmas[i].times(ops, side);
        let blob = Blob {
            x: xs[i].value,
            y: ys[i].value,
            amplitude: amps[i].value,
            sigma: sigma.value,
        };
        assert(is_blob(ops, w, h, seed, start, i as int, blob));
        blobs.push(blob);
        i += 1;
    }
    blobs
}

/// The light of the blobs at one place.
fn blob_light_at<T: Sample, A: Arithmetic<T>>(
    ops: &A,
    blobs: &Vec<Blob<T>>,
    w: usize,
    i: usize,
) -> (r: T)
    requires
        w > 0,
    ensures
        evals(ops, blob_light(blobs@, w as int, i as int, blobs@.len() as int), r),
{
    let x = i % w;
    let y = i / w;
    let mut acc = Traced::whole(ops, 0);
    let mut k: usize = 0;
    while k < blobs.len()
        invariant
            x == i as int % w as int,
            y == i as int / w as int,
            k <= blobs@.len(),
            acc.holds(ops),
            acc.formula@ == blob_light(blobs@, w as int, i as int, k as int),
        decreases blobs@.len() - k,
    {
        let b = blobs[k];
        acc = acc.plus(ops, glow_at(ops, b.amplitude, b.x, b.y, b.sigma, x, y));
        k += 1;
    }
    acc.value
}

/// One sample times the scale.
fn multiply<T: Sample, A: Arithmetic<T>>(ops: &A, scale: T, v: T) -> (r: T)
    ensures
        evals(ops, multiplied(scale)(v), r),
{
    Traced::given(ops, v).times(ops, Traced::given(ops, scale)).value
}

/// Smooth large-scale nebulosity: a handful of wide Gaussian blobs.
fn render_nebula<T: Sample, A: Arithmetic<T>>(
    ops: &A,
    w: usize,
    h: usize,
    amplitude: T,
    rng: &mut Rng,
    Ghost(seed): Ghost<u64>,
    Ghost(start): Ghost<nat>,
) -> (out: Vec<T>)
    requires
        w * h <= usize::MAX,
        old(rng)@ == state_at(seed, start),
    ensures
        final(rng)@ == state_at(seed, start + 20),
        out@.len() == w * h,
        is_nebula(ops, w, h, amplitude, seed, start, out@),
{
    let blobs = draw_blobs(ops, rng, w, h, Ghost(seed), Ghost(start));
    let n: usize = w * h;
    let at = |i: usize| -> (r: T)
        requires
            i < w * h,
        ensures
            evals(ops, blob_light(blobs@, w as int, i as int, blobs@.len() as int), r),
    {
        proof {
            lemma_place(i as int, w as int, h as int);
        }
        blob_light_at(ops, &blobs, w, i)
    };
    let raw = par_map(n, at);
    let peak = largest(ops, raw.as_slice()).value;
    let top = Traced::given(ops, peak);
    let lit = Traced::whole(ops, 0).test(ops, Test::Less, top);
    let ghost light = raw@;
    let scale = Traced::given(ops, amplitude).over(ops, top).value;
    let out = if lit {
        let f = |v: T| -> (r: T)
            ensures
                evals(ops, multiplied(scale)(v), r),
        {
            multiply(ops, scale, v)
        };
        map_plane(raw.as_slice(), &f)
    } else {
        raw
    };
    assert(is_nebula_by(
        ops,
        w as int,
        h as int,
        amplitude,
        blobs@,
        light,
        peak,
        lit,
        scale,
        out@,
    ));
    out
}

// ---------------------------------------------------------------------------
// Sky gradient
// ---------------------------------------------------------------------------

/// The tilt of the sky at place `i`, before it is scaled.
pub open spec fn tilt<T>(w: int, h: int, i: int) -> Formula<T> {
    let xn = Formula::Count((i % w) as usize).over(Formula::Count(last_pixel(w)));
    let yn = Formula::Count((i / w) as usize).over(Formula::Count(last_pixel(h)));
    Formula::Ratio(1, 2).times(xn).plus(Formula::Ratio(3, 10).times(yn)).plus(
        Formula::Ratio(1, 5).times(xn).times(yn),
    )
}

/// The largest of the first `n` samples, minus infinity for none.
pub open spec fn summit_of<T>(s: Seq<T>, n: int) -> Formula<T>
    decreases n,
{
    if n <= 0 {
        Formula::Infinity.apply(Unary::Neg)
    } else {
        summit_of(s, n - 1).most(Formula::Given(s[n - 1]))
    }
}

/// A sample of the tilt, scaled so that its summit is the amplitude.
pub open spec fn tilted<T>(amplitude: T, summit: T) -> spec_fn(T) -> Formula<T> {
    |v: T| Formula::Given(amplitude).times(Formula::Given(v).over(Formula::Given(summit)))
}

/// `out` is a smooth sky gradient: a linear tilt plus a bilinear term, scaled so
/// that the amplitude is its peak; the amplitude everywhere in a frame without
/// a slope, that is, of one pixel.
pub open spec fn is_sky_gradient<T, A: Arithmetic<T>>(
    ops: &A,
    w: int,
    h: int,
    amplitude: T,
    out: Seq<T>,
) -> bool {
    exists|raw: Seq<T>, summit: T, steep: bool| #[trigger]
        is_slope(ops, w, h, raw, summit, steep) && if steep {
            maps(ops, tilted(amplitude, summit), raw, out)
        } else {
            out == Seq::new(raw.len(), |i: int| amplitude)
        }
}

/// `raw` is the tilt of the sky before it is scaled, `summit` its peak, and
/// `steep` tells whether that is positive.
pub open spec fn is_slope<T, A: Arithmetic<T>>(
    ops: &A,
    w: int,
    h: int,
    raw: Seq<T>,
    summit: T,
    steep: bool,
) -> bool {
    &&& is_tilt(ops, w, h, raw, summit)
    &&& decides(ops, Test::Less, whole(0), Formula::Given(summit), steep)
}

/// `raw` is the tilt of the sky before it is scaled, and `summit` its peak.
pub open spec fn is_tilt<T, A: Arithmetic<T>>(
    ops: &A,
    w: int,
    h: int,
    raw: Seq<T>,
    summit: T,
) -> bool {
    &&& raw.len() == w * h
    &&& forall|i: int| 0 <= i < raw.len() ==> evals(ops, tilt(w, h, i), #[trigger] raw[i])
    &&& evals(ops, summit_of(raw, raw.len() as int), summit)
}

/// The tilt at one place.
fn tilt_at<T: Sample, A: Arithmetic<T>>(ops: &A, w: usize, h: usize, i: usize) -> (r: T)
    requires
        i < w * h,
    ensures
        evals(ops, tilt(w as int, h as int, i as int), r),
{
    proof {
        lemma_place(i as int, w as int, h as int);
    }
    let w_max: usize = if w - 1 < 1 {
        1
    } else {
        w - 1
    };
    let h_max: usize = if h - 1 < 1 {
        1
    } else {
        h - 1
    };
    let xn = Traced::count(ops, i % w).over(ops, Traced::count(ops, w_max));
    let yn = Traced::count(ops, i / w).over(ops, Traced::count(ops, h_max));
    let linear = Traced::ratio(ops, 1, 2).times(ops, xn).plus(
        ops,
        Traced::ratio(ops, 3, 10).times(ops, yn),
    );
    linear.plus(ops, Traced::ratio(ops, 1, 5).times(ops, xn).times(ops, yn)).value
}

/// One sample of the tilt, scaled.
fn tilt_sample<T: Sample, A: Arithmetic<T>>(ops: &A, amplitude: T, summit: T, v: T) -> (r: T)
    ensures
        evals(ops, tilted(amplitude, summit)(v), r),
{
    let part = Traced::given(ops, v).over(ops, Traced::given(ops, summit));
    Traced::given(ops, amplitude).times(ops, part).value
}

/// Smooth sky gradient: linear tilt plus a bilinear term, peak = amplitude.
fn render_gradient<T: Sample, A: Arithmetic<T>>(
    ops: &A,
    w: usize,
    h: usize,
    amplitude: T,
) -> (out: Vec<T>)
    requires
        w * h <= usize::MAX,
    ensures
        out@.len() == w * h,
        is_sky_gradient(ops, w as int, h as int, amplitude, out@),
{
    let n: usize = w * h;
    let at = |i: usize| -> (r: T)
        requires
            i < w * h,
        ensures
            evals(ops, tilt(w as int, h as int, i as int), r),
    {
        tilt_at(ops, w, h, i)
    };
    let raw = par_map(n, at);
    let mut acc = Traced::infinity(ops).apply(ops, Unary::Neg);
    let mut i: usize = 0;
    while i < n
        invariant
            n == raw@.len(),
            i <= n,
            acc.holds(ops),
            acc.formula@ == summit_of(raw@, i as int),
        decreases n - i,
    {
        acc = acc.with(ops, Binary::Most, Traced::given(ops, raw[i]));
        i += 1;
    }
    let summit = acc.value;
    // The tilt of a single pixel is zero, and cannot be scaled
    let steep = Traced::whole(ops, 0).test(ops, Test::Less, Traced::given(ops, summit));
    assert(is_slope(ops, w as int, h as int, raw@, summit, steep));
    if !steep {
        return filled(n, amplitude);
    }
    let f = |v: T| -> (r: T)
        ensures
            evals(ops, tilted(amplitude, summit)(v), r),
    {
        tilt_sample(ops, amplitude, summit, v)
    };
    let out = map_plane(raw.as_slice(), &f);
    assert(maps(ops, tilted(amplitude, summit), raw@, out@));
    out
}

// ---------------------------------------------------------------------------
// The noise-free signal
// ---------------------------------------------------------------------------

/// `out` is the sum of two planes.
pub open spec fn is_sum<T, A: Arithmetic<T>>(ops: &A, a: Seq<T>, b: Seq<T>, out: Seq<T>) -> bool {
    &&& out.len() == a.len()
    &&& forall|i: int|
        0 <= i < out.len() ==> evals(
            ops,
            Formula::Given(a[i]).plus(Formula::Given(b[i])),
            #[trigger] out[i],
        )
}

/// `out` is the plane with nebulosity added where `lit`, that is, where its
/// amplitude is positive.
pub open spec fn adds_nebula<T, A: Arithmetic<T>>(
    ops: &A,
    params: SyntheticParams<T>,
    plane: Seq<T>,
    lit: bool,
    out: Seq<T>,
) -> bool {
    &&& decides(ops, Test::Less, whole(0), Formula::Given(params.nebula_amplitude), lit)
    &&& if lit {
        exists|nebula: Seq<T>| #[trigger]
            is_nebula(
                ops,
                params.width,
                params.height,
                params.nebula_amplitude,
                params.seed,
                3 * params.n_stars as nat,
                nebula,
            ) && is_sum(ops, plane, nebula, out)
    } else {
        out == plane
    }
}

/// `out` is the plane with the sky gradient added where its amplitude is
/// positive.
pub open spec fn adds_gradient<T, A: Arithmetic<T>>(
    ops: &A,
    params: SyntheticParams<T>,
    plane: Seq<T>,
    out: Seq<T>,
) -> bool {
    exists|lit: bool| #[trigger]
        decides(ops, Test::Less, whole(0), Formula::Given(params.gradient_amplitude), lit)
            && if lit {
            exists|sky: Seq<T>| #[trigger]
                is_sky_gradient(
                    ops,
                    params.width as int,
                    params.height as int,
                    params.gradient_amplitude,
                    sky,
                ) && is_sum(ops, plane, sky, out)
        } else {
            out == plane
        }
}

/// A sample plus `level`.
pub open spec fn lifted<T>(level: T) -> spec_fn(T) -> Formula<T> {
    |v: T| Formula::Given(v).plus(Formula::Given(level))
}

/// `out` is the noise-free signal: stars, then nebulosity, then the sky
/// gradient, then the background.
pub open spec fn is_signal_by<T, A: Arithmetic<T>>(
    ops: &A,
    params: SyntheticParams<T>,
    stars: Seq<Star<T>>,
    points: Seq<T>,
    lit: bool,
    clouded: Seq<T>,
    sloped: Seq<T>,
    out: Seq<T>,
) -> bool {
    let w = params.width as int;
    let h = params.height as int;
    &&& is_star_plane(ops, w, h, stars, params.psf_sigma, points)
    &&& adds_nebula(ops, params, points, lit, clouded)
    &&& adds_gradient(ops, params, clouded, sloped)
    &&& maps(ops, lifted(params.background), sloped, out)
}

/// `out` is the noise-free signal; `lit` tells whether it has nebulosity.
pub open spec fn is_signal<T, A: Arithmetic<T>>(
    ops: &A,
    params: SyntheticParams<T>,
    stars: Seq<Star<T>>,
    lit: bool,
    out: Seq<T>,
) -> bool {
    exists|points: Seq<T>, clouded: Seq<T>, sloped: Seq<T>| #[trigger]
        is_signal_by(ops, params, stars, points, lit, clouded, sloped, out)
}

/// The sum of two planes.
fn add_planes<T: Sample, A: Arithmetic<T>>(ops: &A, a: &[T], b: &[T]) -> (out: Vec<T>)
    requires
        a@.len() == b@.len(),
    ensures
        is_sum(ops, a@, b@, out@),
{
    let at = |i: usize| -> (r: T)
        requires
            a@.len() == b@.len(),
            i < a@.len(),
        ensures
            evals(ops, Formula::Given(a@[i as int]).plus(Formula::Given(b@[i as int])), r),
    {
        Traced::given(ops, a[i]).plus(ops, Traced::given(ops, b[i])).value
    };
    par_map(a.len(), at)
}

/// One sample plus the level.
fn lift<T: Sample, A: Arithmetic<T>>(ops: &A, level: T, v: T) -> (r: T)
    ensures
        evals(ops, lifted(level)(v), r),
{
    Traced::given(ops, v).plus(ops, Traced::given(ops, level)).value
}

/// How many draws the stars and the nebulosity take.
pub open spec fn signal_draws(n_stars: usize, lit: bool) -> nat {
    3 * n_stars as nat + if lit {
        20nat
    } else {
        0nat
    }
}

/// The noise-free signal. Tells whether it has nebulosity.
fn make_signal<T: Sample, A: Arithmetic<T>>(
    ops: &A,
    rng: &mut Rng,
    params: &SyntheticParams<T>,
    stars: &Vec<Star<T>>,
) -> (r: (Vec<T>, bool))
    requires
        params.width * params.height <= usize::MAX,
        old(rng)@ == state_at(params.seed, 3 * params.n_stars as nat),
    ensures
        r.0@.len() == params.width * params.height,
        is_signal(ops, *params, stars@, r.1, r.0@),
        final(rng)@ == state_at(params.seed, signal_draws(params.n_stars, r.1)),
{
    let w = params.width;
    let h = params.height;
    let zero = Traced::whole(ops, 0);
    let points = render_gaussians(ops, w, h, stars, params.psf_sigma);
    let ghost start = 3 * params.n_stars as nat;
    let ghost seed = params.seed;
    let ghost first = points@;
    let amplitude = Traced::given(ops, params.nebula_amplitude);
    let lit = zero.test(ops, Test::Less, amplitude);
    let clouded = if lit {
        let nebula = render_nebula(
            ops,
            w,
            h,
            params.nebula_amplitude,
            rng,
            Ghost(seed),
            Ghost(start),
        );
        add_planes(ops, points.as_slice(), nebula.as_slice())
    } else {
        points
    };
    assert(adds_nebula(ops, *params, first, lit, clouded@));
    let ghost second = clouded@;
    let slope = Traced::given(ops, params.gradient_amplitude);
    let sloping = zero.test(ops, Test::Less, slope);
    let sloped = if sloping {
        let sky = render_gradient(ops, w, h, params.gradient_amplitude);
        add_planes(ops, clouded.as_slice(), sky.as_slice())
    } else {
        clouded
    };
    assert(adds_gradient(ops, *params, second, sloped@));
    let level = params.background;
    let f = |v: T| -> (r: T)
        ensures
            evals(ops, lifted(level)(v), r),
    {
        lift(ops, level, v)
    };
    let out = map_plane(sloped.as_slice(), &f);
    assert(maps(ops, lifted(level), sloped@, out@));
    assert(is_signal_by(ops, *params, stars@, first, lit, second, sloped@, out@));
    (out, lit)
}

// ---------------------------------------------------------------------------
// Channels and edges
// ---------------------------------------------------------------------------

/// `out` has the signal as its channels: one channel, or three multiplied by
/// the channel balance.
pub open spec fn is_spread<T, A: Arithmetic<T>>(
    ops: &A,
    params: SyntheticParams<T>,
    signal: Seq<T>,
    out: Raster<T>,
) -> bool {
    &&& out.width == params.width
    &&& out.height == params.height
    &&& if params.rgb {
        &&& out.planes.len() == 3
        &&& maps(ops, multiplied(params.channel_balance.0), signal, out.planes[0])
        &&& maps(ops, multiplied(params.channel_balance.1), signal, out.planes[1])
        &&& maps(ops, multiplied(params.channel_balance.2), signal, out.planes[2])
    } else {
        out.planes == seq![signal]
    }
}

/// Place `i` lies in the dark edges of the frame.
pub open spec fn in_dark_edge(
    edges: (usize, usize, usize, usize),
    w: int,
    h: int,
    i: int,
) -> bool {
    ||| i / w < edges.0
    ||| i / w >= h - edges.1
    ||| i % w < edges.2
    ||| i % w >= w - edges.3
}

/// The bottom edge is no higher than the frame unless the top edge covers it,
/// and the right edge no wider unless the other three do.
pub open spec fn edges_fit(edges: (usize, usize, usize, usize), w: int, h: int) -> bool {
    &&& w > 0 && edges.0 < h ==> edges.1 <= h
    &&& edges.0 < h - edges.1 && edges.2 < w ==> edges.3 <= w
}

/// `out` is a plane with its dark edges attenuated to 2%.
pub open spec fn is_edged_plane<T, A: Arithmetic<T>>(
    ops: &A,
    edges: (usize, usize, usize, usize),
    w: int,
    h: int,
    plane: Seq<T>,
    out: Seq<T>,
) -> bool {
    &&& out.len() == plane.len()
    &&& forall|i: int|
        0 <= i < out.len() ==> evals(
            ops,
            Formula::Given(plane[i]).times(
                if in_dark_edge(edges, w, h, i) {
                    Formula::Ratio(2, 100)
                } else {
                    whole(1)
                },
            ),
            #[trigger] out[i],
        )
}

/// `out` is the image with its dark edges attenuated, if it has any.
pub open spec fn is_edged<T, A: Arithmetic<T>>(
    ops: &A,
    edges: (usize, usize, usize, usize),
    image: Raster<T>,
    out: Raster<T>,
) -> bool {
    if edges == (0usize, 0usize, 0usize, 0usize) {
        out == image
    } else {
        &&& out.same_shape(image)
        &&& forall|c: int|
            0 <= c < out.planes.len() ==> is_edged_plane(
                ops,
                edges,
                image.width as int,
                image.height as int,
                image.planes[c],
                #[trigger] out.planes[c],
            )
    }
}

/// `out` is the noise-free image of the signal.
pub open spec fn is_clean<T, A: Arithmetic<T>>(
    ops: &A,
    params: SyntheticParams<T>,
    signal: Seq<T>,
    out: Raster<T>,
) -> bool {
    exists|flat: Raster<T>| #[trigger]
        is_spread(ops, params, signal, flat) && is_edged(ops, params.dark_edges, flat, out)
}

/// The signal times one channel's balance.
fn balanced<T: Sample, A: Arithmetic<T>>(ops: &A, signal: &[T], balance: T) -> (out: Vec<T>)
    ensures
        maps(ops, multiplied(balance), signal@, out@),
{
    let f = |v: T| -> (r: T)
        ensures
            evals(ops, multiplied(balance)(v), r),
    {
        multiply(ops, balance, v)
    };
    map_plane(signal, &f)
}

/// One sample with the dark edges attenuated.
fn edged_sample<T: Sample, A: Arithmetic<T>>(
    ops: &A,
    edges: (usize, usize, usize, usize),
    w: usize,
    h: usize,
    plane: &[T],
    i: usize,
) -> (r: T)
    requires
        plane@.len() == w * h,
        i < plane@.len(),
        edges_fit(edges, w as int, h as int),
    ensures
        evals(
            ops,
            Formula::Given(plane@[i as int]).times(
                if in_dark_edge(edges, w as int, h as int, i as int) {
                    Formula::Ratio(2, 100)
                } else {
                    whole(1)
                },
            ),
            r,
        ),
{
    proof {
        lemma_place(i as int, w as int, h as int);
    }
    let (top, bottom, left, right) = edges;
    let x = i % w;
    let y = i / w;
    let factor = if y < top || y >= h - bottom || x < left || x >= w - right {
        Traced::ratio(ops, 2, 100)
    } else {
        Traced::whole(ops, 1)
    };
    Traced::given(ops, plane[i]).times(ops, factor).value
}

/// One plane with the dark edges attenuated.
fn edge_plane<T: Sample, A: Arithmetic<T>>(
    ops: &A,
    edges: (usize, usize, usize, usize),
    w: usize,
    h: usize,
    plane: &[T],
) -> (out: Vec<T>)
    requires
        plane@.len() == w * h,
        edges_fit(edges, w as int, h as int),
    ensures
        is_edged_plane(ops, edges, w as int, h as int, plane@, out@),
{
    let at = |i: usize| -> (r: T)
        requires
            plane@.len() == w * h,
            i < plane@.len(),
            edges_fit(edges, w as int, h as int),
        ensures
            evals(
                ops,
                Formula::Given(plane@[i as int]).times(
                    if in_dark_edge(edges, w as int, h as int, i as int) {
                        Formula::Ratio(2, 100)
                    } else {
                        whole(1)
                    },
                ),
                r,
            ),
    {
        edged_sample(ops, edges, w, h, plane, i)
    };
    par_map(plane.len(), at)
}

/// The noise-free image of the signal.
fn make_clean<T: Sample, A: Arithmetic<T>>(
    ops: &A,
    params: &SyntheticParams<T>,
    signal: Vec<T>,
) -> (out: Image<T>)
    requires
        signal@.len() == params.width * params.height,
        edges_fit(params.dark_edges, params.width as int, params.height as int),
    ensures
        out@.wf(),
        is_clean(ops, *params, signal@, out@),
{
    let w = params.width;
    let h = params.height;
    let ghost source = signal@;
    // Expand to RGB with a color cast
    let flat = if params.rgb {
        let (red, green, blue) = params.channel_balance;
        Image::new_rgb(
            w,
            h,
            [
                balanced(ops, signal.as_slice(), red),
                balanced(ops, signal.as_slice(), green),
                balanced(ops, signal.as_slice(), blue),
            ],
        )
    } else {
        Image::new_mono(w, h, signal)
    };
    assert(is_spread(ops, *params, source, flat@));

    // Dark stacking edges attenuate everything, including the noise floor
    let edges = params.dark_edges;
    if edges.0 == 0 && edges.1 == 0 && edges.2 == 0 && edges.3 == 0 {
        return flat;
    }
    let mut channels: Vec<Vec<T>> = Vec::new();
    let mut c: usize = 0;
    while c < flat.num_channels()
        invariant
            flat@.wf(),
            w == flat@.width,
            h == flat@.height,
            edges_fit(edges, w as int, h as int),
            c <= flat@.planes.len(),
            channels@.len() == c,
            forall|k: int| 0 <= k < c ==> (#[trigger] channels@[k])@.len() == w * h,
            forall|k: int|
                0 <= k < c ==> is_edged_plane(
                    ops,
                    edges,
                    w as int,
                    h as int,
                    flat@.planes[k],
                    (#[trigger] channels@[k])@,
                ),
        decreases flat@.planes.len() - c,
    {
        channels.push(edge_plane(ops, edges, w, h, flat.channel(c)));
        c += 1;
    }
    let out = Image::from_channels(w, h, channels);
    assert forall|k: int| 0 <= k < out@.planes.len() implies is_edged_plane(
        ops,
        edges,
        w as int,
        h as int,
        flat@.planes[k],
        #[trigger] out@.planes[k],
    ) by {
        assert(out@.planes[k] == channels@[k]@);
    }
    out
}

// ---------------------------------------------------------------------------
// Noise and hot pixels
// ---------------------------------------------------------------------------

/// The number of draws before the noise of place `i` of channel `c`.
pub open spec fn noise_draw(start: nat, n: nat, c: int, i: int) -> nat {
    (start + 2 * (c * n + i)) as nat
}

/// `out` is a plane with Gaussian noise added, drawn from `start` on.
pub open spec fn is_noisy_plane<T, A: Arithmetic<T>>(
    ops: &A,
    sigma: T,
    seed: u64,
    start: nat,
    c: int,
    plane: Seq<T>,
    out: Seq<T>,
) -> bool {
    &&& out.len() == plane.len()
    &&& forall|i: int|
        0 <= i < out.len() ==> evals(
            ops,
            Formula::Given(plane[i]).plus(
                normal_of(sigma, state_at(seed, noise_draw(start, plane.len(), c, i))),
            ),
            #[trigger] out[i],
        )
}

/// `out` is the image with noise added where `noisy`, that is, where the sigma
/// is positive.
pub open spec fn is_noisy<T, A: Arithmetic<T>>(
    ops: &A,
    sigma: T,
    seed: u64,
    start: nat,
    image: Raster<T>,
    noisy: bool,
    out: Raster<T>,
) -> bool {
    &&& decides(ops, Test::Less, whole(0), Formula::Given(sigma), noisy)
    &&& if noisy {
        &&& out.same_shape(image)
        &&& forall|c: int|
            0 <= c < out.planes.len() ==> is_noisy_plane(
                ops,
                sigma,
                seed,
                start,
                c,
                image.planes[c],
                #[trigger] out.planes[c],
            )
    } else {
        out == image
    }
}

/// Hot pixel `k` of the frame, drawn from draw `start` on: all rows first, then
/// all columns.
pub open spec fn hot_place(seed: u64, start: nat, count: nat, w: int, h: int, k: int) -> int {
    let y = drawn(state_at(seed, (start + k) as nat)) as int % h;
    let x = drawn(state_at(seed, (start + count + k) as nat)) as int % w;
    y * w + x
}

/// Place `i` is one of the first `n` hot pixels.
pub open spec fn is_hot(
    seed: u64,
    start: nat,
    count: nat,
    w: int,
    h: int,
    i: int,
    n: int,
) -> bool {
    exists|k: int| 0 <= k < n && #[trigger] hot_place(seed, start, count, w, h, k) == i
}

/// `out` is a plane with the hot pixels set and negative samples raised to
/// zero.
pub open spec fn is_hot_plane<T, A: Arithmetic<T>>(
    ops: &A,
    params: SyntheticParams<T>,
    start: nat,
    hot: T,
    plane: Seq<T>,
    out: Seq<T>,
) -> bool {
    let count = params.hot_pixels as nat;
    let w = params.width as int;
    let h = params.height as int;
    &&& out.len() == plane.len()
    &&& forall|i: int|
        0 <= i < out.len() ==> evals(
            ops,
            Formula::Given(
                if is_hot(params.seed, start, count, w, h, i, count as int) {
                    hot
                } else {
                    plane[i]
                },
            ).most(whole(0)),
            #[trigger] out[i],
        )
}

/// `out` is the image with the hot pixels set and negative samples raised to
/// zero.
pub open spec fn is_finished<T, A: Arithmetic<T>>(
    ops: &A,
    params: SyntheticParams<T>,
    start: nat,
    hot: T,
    image: Raster<T>,
    out: Raster<T>,
) -> bool {
    &&& evals(ops, Formula::Given(params.star_amplitude.1).times(Formula::Ratio(15, 10)), hot)
    &&& out.same_shape(image)
    &&& forall|c: int|
        0 <= c < out.planes.len() ==> is_hot_plane(
            ops,
            params,
            start,
            hot,
            image.planes[c],
            #[trigger] out.planes[c],
        )
}

/// The number of draws before the hot pixels of an image with `samples`
/// samples.
pub open spec fn draws_before_hot(start: nat, samples: nat, noisy: bool) -> nat {
    start + if noisy {
        2 * samples
    } else {
        0nat
    }
}

/// `out` is the observed image: the noise-free one with noise and hot pixels.
pub open spec fn is_observed<T, A: Arithmetic<T>>(
    ops: &A,
    params: SyntheticParams<T>,
    start: nat,
    clean: Raster<T>,
    out: Raster<T>,
) -> bool {
    exists|noisy: bool, rough: Raster<T>, hot: T|
        is_noisy(ops, params.noise_sigma, params.seed, start, clean, noisy, rough)
            && #[trigger] is_finished(
            ops,
            params,
            draws_before_hot(start, clean.samples(), noisy),
            hot,
            rough,
            out,
        )
}

/// `out` is the test image of the parameters: its star catalog, its noise-free
/// image and its observed image, all drawn from the seed.
pub open spec fn is_test_image<T, A: Arithmetic<T>>(
    ops: &A,
    params: SyntheticParams<T>,
    out: SyntheticImage<T>,
) -> bool {
    &&& are_stars(ops, params, out.stars@)
    &&& exists|lit: bool, signal: Seq<T>| #[trigger]
        is_signal(ops, params, out.stars@, lit, signal) && is_clean(
            ops,
            params,
            signal,
            out.clean@,
        ) && is_observed(
            ops,
            params,
            signal_draws(params.n_stars, lit),
            out.clean@,
            out.data@,
        )
    &&& out.background == params.background
    &&& out.noise_sigma == params.noise_sigma
    &&& out.dark_edges == params.dark_edges
}

/// Adds noise to one plane.
fn noise_plane<T: Sample, A: Arithmetic<T>>(
    ops: &A,
    rng: &mut Rng,
    sigma: T,
    plane: &[T],
    Ghost(seed): Ghost<u64>,
    Ghost(start): Ghost<nat>,
    Ghost(c): Ghost<int>,
) -> (out: Vec<T>)
    requires
        0 <= c,
        old(rng)@ == state_at(seed, noise_draw(start, plane@.len(), c, 0)),
    ensures
        final(rng)@ == state_at(seed, noise_draw(start, plane@.len(), c + 1, 0)),
        is_noisy_plane(ops, sigma, seed, start, c, plane@, out@),
{
    let ghost n = plane@.len();
    proof {
        assert(0 <= c * n) by (nonlinear_arith)
            requires
                0 <= c,
                0 <= n,
        ;
        assert((c + 1) * n == c * n + n) by (nonlinear_arith);
    }
    let mut out: Vec<T> = Vec::with_capacity(plane.len());
    let mut i: usize = 0;
    while i < plane.len()
        invariant
            n == plane@.len(),
            0 <= c * n,
            i <= n,
            rng@ == state_at(seed, noise_draw(start, n, c, i as int)),
            out@.len() == i,
            forall|k: int|
                0 <= k < i ==> evals(
                    ops,
                    Formula::Given(plane@[k]).plus(
                        normal_of(sigma, state_at(seed, noise_draw(start, n, c, k))),
                    ),
                    #[trigger] out@[k],
                ),
        decreases n - i,
    {
        let ghost at = noise_draw(start, n, c, i as int);
        let noise = rng.normal(ops, sigma);
        out.push(Traced::given(ops, plane[i]).plus(ops, noise).value);
        proof {
            assert(state_at(seed, at + 1) == advance(state_at(seed, at)));
            assert(state_at(seed, at + 2) == advance(state_at(seed, at + 1)));
            assert(noise_draw(start, n, c, i + 1) == at + 2);
        }
        i += 1;
    }
    out
}

/// Adds noise to the image.
fn add_noise<T: Sample, A: Arithmetic<T>>(
    ops: &A,
    rng: &mut Rng,
    sigma: T,
    image: &Image<T>,
    Ghost(seed): Ghost<u64>,
    Ghost(start): Ghost<nat>,
) -> (r: (Image<T>, bool))
    requires
        image@.wf(),
        old(rng)@ == state_at(seed, start),
    ensures
        r.0@.wf(),
        r.0@.same_shape(image@),
        is_noisy(ops, sigma, seed, start, image@, r.1, r.0@),
        final(rng)@ == state_at(seed, draws_before_hot(start, image@.samples(), r.1)),
{
    let noisy = Traced::whole(ops, 0).test(ops, Test::Less, Traced::given(ops, sigma));
    if !noisy {
        return (image.clone(), false);
    }
    let w = image.width();
    let h = image.height();
    let mut channels: Vec<Vec<T>> = Vec::new();
    let mut c: usize = 0;
    while c < image.num_channels()
        invariant
            image@.wf(),
            w == image@.width,
            h == image@.height,
            c <= image@.planes.len(),
            rng@ == state_at(seed, noise_draw(start, image@.width * image@.height, c as int, 0)),
            channels@.len() == c,
            forall|k: int| 0 <= k < c ==> (#[trigger] channels@[k])@.len() == w * h,
            forall|k: int|
                0 <= k < c ==> is_noisy_plane(
                    ops,
                    sigma,
                    seed,
                    start,
                    k,
                    image@.planes[k],
                    (#[trigger] channels@[k])@,
                ),
        decreases image@.planes.len() - c,
    {
        let plane = noise_plane(
            ops,
            rng,
            sigma,
            image.channel(c),
            Ghost(seed),
            Ghost(start),
            Ghost(c as int),
        );
        channels.push(plane);
        c += 1;
    }
    let out = Image::from_channels(w, h, channels);
    assert forall|k: int| 0 <= k < out@.planes.len() implies is_noisy_plane(
        ops,
        sigma,
        seed,
        start,
        k,
        image@.planes[k],
        #[trigger] out@.planes[k],
    ) by {
        assert(out@.planes[k] == channels@[k]@);
    }
    (out, true)
}

/// The mask of the hot pixels.
fn hot_mask<T: Sample>(
    rng: &mut Rng,
    params: &SyntheticParams<T>,
    Ghost(start): Ghost<nat>,
) -> (mask: Vec<bool>)
    requires
        params.width * params.height <= usize::MAX,
        params.hot_pixels > 0 ==> params.width > 0 && params.height > 0,
        old(rng)@ == state_at(params.seed, start),
    ensures
        mask@.len() == params.width * params.height,
        forall|i: int|
            0 <= i < mask@.len() ==> #[trigger] mask@[i] == is_hot(
                params.seed,
                start,
                params.hot_pixels as nat,
                params.width as int,
                params.height as int,
                i,
                params.hot_pixels as int,
            ),
{
    let w = params.width;
    let h = params.height;
    let count = params.hot_pixels;
    let ghost seed = params.seed;
    let mut rows: Vec<usize> = Vec::with_capacity(count);
    let mut k: usize = 0;
    while k < count
        invariant
            k <= count,
            count > 0 ==> h > 0,
            rng@ == state_at(seed, start + k as nat),
            rows@.len() == k,
            forall|j: int|
                0 <= j < k ==> #[trigger] rows@[j] == drawn(state_at(seed, (start + j) as nat))
                    as int % h as int,
            forall|j: int| 0 <= j < k ==> #[trigger] rows@[j] < h,
        decreases count - k,
    {
        rows.push(rng.below(h));
        k += 1;
    }
    let mut mask: Vec<bool> = filled(w * h, false);
    let mut k: usize = 0;
    while k < count
        invariant
            k <= count,
            count > 0 ==> w > 0,
            w * h <= usize::MAX,
            rng@ == state_at(seed, start + count as nat + k as nat),
            rows@.len() == count,
            forall|j: int|
                0 <= j < count ==> #[trigger] rows@[j] == drawn(state_at(seed, (start + j) as nat))
                    as int % h as int,
            forall|j: int| 0 <= j < count ==> #[trigger] rows@[j] < h,
            mask@.len() == w * h,
            forall|i: int|
                0 <= i < mask@.len() ==> #[trigger] mask@[i] == is_hot(
                    seed,
                    start,
                    count as nat,
                    w as int,
                    h as int,
                    i,
                    k as int,
                ),
        decreases count - k,
    {
        let x = rng.below(w);
        let y = rows[k];
        proof {
            lemma_pixel(x as int, y as int, w as int, h as int);
        }
        let ghost before = mask@;
        let ghost place = y * w + x;
        mask[y * w + x] = true;
        proof {
            assert(hot_place(seed, start, count as nat, w as int, h as int, k as int) == place);
            assert forall|i: int| 0 <= i < mask@.len() implies #[trigger] mask@[i] == is_hot(
                seed,
                start,
                count as nat,
                w as int,
                h as int,
                i,
                k + 1,
            ) by {
                if i != place {
                    assert(mask@[i] == before[i]);
                    if is_hot(seed, start, count as nat, w as int, h as int, i, k + 1) {
                        let j = choose|j: int|
                            0 <= j < k + 1 && #[trigger] hot_place(
                                seed,
                                start,
                                count as nat,
                                w as int,
                                h as int,
                                j,
                            ) == i;
                        assert(j != k);
                    }
                    if is_hot(seed, start, count as nat, w as int, h as int, i, k as int) {
                        let j = choose|j: int|
                            0 <= j < k && #[trigger] hot_place(
                                seed,
                                start,
                                count as nat,
                                w as int,
                                h as int,
                                j,
                            ) == i;
                        assert(0 <= j < k + 1);
                    }
                }
            }
        }
        k += 1;
    }
    mask
}

/// One plane with the hot pixels set and negative samples raised to zero.
fn finish_plane<T: Sample, A: Arithmetic<T>>(
    ops: &A,
    mask: &Vec<bool>,
    hot: T,
    plane: &[T],
) -> (out: Vec<T>)
    requires
        mask@.len() == plane@.len(),
    ensures
        out@.len() == plane@.len(),
        forall|i: int|
            0 <= i < out@.len() ==> evals(
                ops,
                Formula::Given(
                    if mask@[i] {
                        hot
                    } else {
                        plane@[i]
                    },
                ).most(whole(0)),
                #[trigger] out@[i],
            ),
{
    let mut out: Vec<T> = Vec::with_capacity(plane.len());
    let mut i: usize = 0;
    while i < plane.len()
        invariant
            mask@.len() == plane@.len(),
            i <= plane@.len(),
            out@.len() == i,
            forall|k: int|
                0 <= k < i ==> evals(
                    ops,
                    Formula::Given(
                        if mask@[k] {
                            hot
                        } else {
                            plane@[k]
                        },
                    ).most(whole(0)),
                    #[trigger] out@[k],
                ),
        decreases plane@.len() - i,
    {
        let v = if mask[i] {
            hot
        } else {
            plane[i]
        };
        out.push(Traced::given(ops, v).with(ops, Binary::Most, Traced::whole(ops, 0)).value);
        i += 1;
    }
    out
}

/// The observed image.
fn observe<T: Sample, A: Arithmetic<T>>(
    ops: &A,
    rng: &mut Rng,
    params: &SyntheticParams<T>,
    clean: &Image<T>,
    Ghost(start): Ghost<nat>,
) -> (out: Image<T>)
    requires
        clean@.wf(),
        clean@.width == params.width,
        clean@.height == params.height,
        params.hot_pixels > 0 ==> params.width > 0 && params.height > 0,
        old(rng)@ == state_at(params.seed, start),
    ensures
        out@.wf(),
        out@.same_shape(clean@),
        is_observed(ops, *params, start, clean@, out@),
{
    let w = params.width;
    let h = params.height;
    let ghost seed = params.seed;
    let (rough, noisy) = add_noise(ops, rng, params.noise_sigma, clean, Ghost(seed), Ghost(start));
    let ghost after = draws_before_hot(start, clean@.samples(), noisy);
    let mask = hot_mask(rng, params, Ghost(after));
    let hot = Traced::given(ops, params.star_amplitude.1).times(
        ops,
        Traced::ratio(ops, 15, 10),
    ).value;
    let mut channels: Vec<Vec<T>> = Vec::new();
    let mut c: usize = 0;
    while c < rough.num_channels()
        invariant
            rough@.wf(),
            w == rough@.width,
            h == rough@.height,
            w == params.width,
            h == params.height,
            mask@.len() == w * h,
            forall|i: int|
                0 <= i < mask@.len() ==> #[trigger] mask@[i] == is_hot(
                    params.seed,
                    after,
                    params.hot_pixels as nat,
                    params.width as int,
                    params.height as int,
                    i,
                    params.hot_pixels as int,
                ),
            c <= rough@.planes.len(),
            channels@.len() == c,
            forall|k: int| 0 <= k < c ==> (#[trigger] channels@[k])@.len() == w * h,
            forall|k: int|
                0 <= k < c ==> is_hot_plane(
                    ops,
                    *params,
                    after,
                    hot,
                    rough@.planes[k],
                    (#[trigger] channels@[k])@,
                ),
        decreases rough@.planes.len() - c,
    {
        let plane = finish_plane(ops, &mask, hot, rough.channel(c));
        assert(is_hot_plane(ops, *params, after, hot, rough@.planes[c as int], plane@)) by {
            assert forall|i: int| 0 <= i < plane@.len() implies evals(
                ops,
                Formula::Given(
                    if is_hot(
                        params.seed,
                        after,
                        params.hot_pixels as nat,
                        w as int,
                        h as int,
                        i,
                        params.hot_pixels as int,
                    ) {
                        hot
                    } else {
                        rough@.planes[c as int][i]
                    },
                ).most(whole(0)),
                #[trigger] plane@[i],
            ) by {
                assert(mask@[i] == is_hot(
                    params.seed,
                    after,
                    params.hot_pixels as nat,
                    w as int,
                    h as int,
                    i,
                    params.hot_pixels as int,
                ));
            }
        }
        channels.push(plane);
        c += 1;
    }
    let out = Image::from_channels(w, h, channels);
    assert forall|k: int| 0 <= k < out@.planes.len() implies is_hot_plane(
        ops,
        *params,
        after,
        hot,
        rough@.planes[k],
        #[trigger] out@.planes[k],
    ) by {
        assert(out@.planes[k] == channels@[k]@);
    }
    assert(is_finished(ops, *params, after, hot, rough@, out@));
    out
}

/// Generate a synthetic linear astrophotograph with known ground truth.
pub fn make_test_image<T: Sample, A: Arithmetic<T>>(
    ops: &A,
    params: &SyntheticParams<T>,
) -> (out: SyntheticImage<T>)
    requires
        params.width * params.height <= usize::MAX,
        edges_fit(params.dark_edges, params.width as int, params.height as int),
        params.hot_pixels > 0 ==> params.width > 0 && params.height > 0,
    ensures
        out.data@.wf(),
        out.clean@.wf(),
        out.data@.same_shape(out.clean@),
        is_test_image(ops, *params, out),
{
    let mut rng = Rng::new(params.seed);
    let stars = draw_stars(ops, &mut rng, params);
    let (signal, lit) = make_signal(ops, &mut rng, params, &stars);
    let ghost source = signal@;
    let ghost start = signal_draws(params.n_stars, lit);
    let clean = make_clean(ops, params, signal);
    let data = observe(ops, &mut rng, params, &clean, Ghost(start));
    let out = SyntheticImage {
        data,
        clean,
        stars,
        background: params.background,
        noise_sigma: params.noise_sigma,
        dark_edges: params.dark_edges,
    };
    proof {
        assert(is_signal(ops, *params, out.stars@, lit, source));
        assert(is_clean(ops, *params, source, out.clean@));
        assert(is_observed(ops, *params, start, out.clean@, out.data@));
    }
    out
}

} // verus!
