//! Astronomically safe denoising via starlet wavelet thresholding.
//!
//! Uses the isotropic undecimated wavelet transform (the "starlet" or à trous
//! transform with a B3-spline kernel) that is standard in astronomy image
//! processing (Starck & Murtagh, "Astronomical Image and Data Analysis").
//!
//! Why it is safe for astrophotos:
//! - Stars and real structure produce wavelet coefficients far above the
//!   noise threshold and pass through (nearly) untouched.
//! - The coarse residual (faint nebulosity, sky background) is never
//!   thresholded, so no large-scale signal is destroyed.
//! - The noise level is estimated from the data itself (MAD of the finest
//!   wavelet scale), so no manual noise parameter is needed.

use crate::arith::{
    Arithmetic, Binary, Formula, Sample, Test, Traced, Unary, decides, evals, evals_all,
    lemma_select, whole,
};
use crate::frame::{Image, Raster, views};
use crate::parallel::par_map;
use crate::plane::{copied, lemma_pixel, lemma_place};
use crate::stats::{is_median, median_of};
use vstd::prelude::*;

verus! {

/// How detail coefficients below the threshold are treated.
#[derive(Debug, Clone, Copy, PartialEq, Eq)]
pub enum ThresholdMode {
    /// Keep-or-kill. Preserves star photometry exactly: the standard choice
    /// for astronomy.
    Hard,
    /// Shrink every coefficient. Visually smoother background but
    /// systematically dims point sources: fine for starless or
    /// background-dominated data.
    Soft,
}

impl Default for ThresholdMode {
    fn default() -> (r: Self)
        ensures
            r == ThresholdMode::Hard,
    {
        ThresholdMode::Hard
    }
}

/// Tuning for [`denoise`].
#[derive(Debug)]
pub struct DenoiseParams<T> {
    /// Number of wavelet detail scales to threshold. More scales remove
    /// lower-frequency noise but risk touching real structure. Limited
    /// automatically for small images.
    pub n_scales: usize,
    /// Threshold in units of the estimated noise sigma. The finest scale uses
    /// `threshold + 1` (standard practice: it is almost pure noise). Higher
    /// means stronger smoothing.
    pub threshold: T,
    pub mode: ThresholdMode,
}

impl<T: Copy> Clone for DenoiseParams<T> {
    fn clone(&self) -> (r: Self)
        ensures
            r == *self,
    {
        *self
    }
}

impl<T: Copy> Copy for DenoiseParams<T> {

}

impl<T: Sample> DenoiseParams<T> {
    /// Four scales, hard thresholding at three sigmas.
    pub fn defaults<A: Arithmetic<T>>(ops: &A) -> (r: Self)
        ensures
            r.n_scales == 4,
            evals(ops, whole(3), r.threshold),
            r.mode == ThresholdMode::Hard,
    {
        DenoiseParams { n_scales: 4, threshold: ops.ratio(3, 1), mode: ThresholdMode::Hard }
    }
}

/// An index mirrored into `[0, n)` without repeating the edge sample:
/// `[3 2 | 1 2 3 | 2 1]`.
pub open spec fn mirrored(i: int, n: int) -> int {
    if n == 1 {
        0
    } else {
        let period = 2 * (n - 1);
        let m = i % period;
        if m < n {
            m
        } else {
            period - m
        }
    }
}

/// Mirroring at the first sample changes nothing.
pub proof fn lemma_mirrored_negated(i: int, n: int)
    requires
        n >= 2,
    ensures
        mirrored(-i, n) == mirrored(i, n),
{
    let p = 2 * (n - 1);
    vstd::arithmetic::div_mod::lemma_fundamental_div_mod(i, p);
    vstd::arithmetic::div_mod::lemma_mod_bound(i, p);
    let q = i / p;
    let m = i % p;
    if m == 0 {
        assert(-i == (-q) * p + 0) by (nonlinear_arith)
            requires
                i == p * q + m,
                m == 0,
        ;
        vstd::arithmetic::div_mod::lemma_fundamental_div_mod_converse(-i, p, -q, 0);
    } else {
        assert(-i == (-q - 1) * p + (p - m)) by (nonlinear_arith)
            requires
                i == p * q + m,
        ;
        vstd::arithmetic::div_mod::lemma_fundamental_div_mod_converse(-i, p, -q - 1, p - m);
    }
}

/// Mirroring at the last sample changes nothing.
pub proof fn lemma_mirrored_reflected(i: int, n: int)
    requires
        n >= 2,
    ensures
        mirrored(2 * (n - 1) - i, n) == mirrored(i, n),
{
    let p = 2 * (n - 1);
    vstd::arithmetic::div_mod::lemma_mod_add_multiples_vanish(-i, p);
    lemma_mirrored_negated(i, n);
}

/// An index inside the range stays where it is.
pub proof fn lemma_mirrored_inside(i: int, n: int)
    requires
        0 <= i < n,
    ensures
        mirrored(i, n) == i,
{
    if n >= 2 {
        vstd::arithmetic::div_mod::lemma_small_mod(i as nat, (2 * (n - 1)) as nat);
    }
}

/// A mirrored index lies in the range.
pub proof fn lemma_mirrored_in_range(i: int, n: int)
    requires
        n >= 1,
    ensures
        0 <= mirrored(i, n) < n,
{
    if n >= 2 {
        vstd::arithmetic::div_mod::lemma_mod_bound(i, 2 * (n - 1));
    }
}

/// Mirror an index into `[0, n)` without repeating the edge sample.
pub fn reflect(i: i128, n: usize) -> (r: usize)
    requires
        n >= 1,
        -0x1_0000_0000_0000_0000_0000 <= i <= 0x1_0000_0000_0000_0000_0000,
    ensures
        r == mirrored(i as int, n as int),
        r < n,
{
    if n == 1 {
        return 0;
    }
    let last: i128 = n as i128 - 1;
    let mut k: i128 = i;
    while k < 0 || k > last
        invariant
            n >= 2,
            last == n - 1,
            -0x1_0000_0000_0000_0000_0000 <= k <= 0x1_0000_0000_0000_0000_0000,
            mirrored(k as int, n as int) == mirrored(i as int, n as int),
        decreases
            if k < 0 {
                1 - 2 * k
            } else {
                2 * k
            },
    {
        if k < 0 {
            proof {
                lemma_mirrored_negated(k as int, n as int);
            }
            k = -k;
        } else {
            proof {
                lemma_mirrored_reflected(k as int, n as int);
            }
            k = 2 * last - k;
        }
    }
    proof {
        lemma_mirrored_inside(k as int, n as int);
    }
    k as usize
}

/// Weight `k` of the B3-spline scaling kernel, in sixteenths.
pub open spec fn spline_weight(k: int) -> u64 {
    if k == 0 || k == 4 {
        1
    } else if k == 1 || k == 3 {
        4
    } else {
        6
    }
}

/// The place that weight `k` reads around `i`, with holes of size `step`.
pub open spec fn tap(i: int, k: int, step: int, n: int) -> int {
    mirrored(i + (k - 2) * step, n)
}

/// One weighted sample of a vertical pass.
pub open spec fn vertical_term<T>(data: Seq<T>, step: int, w: int, h: int, i: int, k: int) -> Formula<
    T,
> {
    Formula::Ratio(spline_weight(k), 16).times(
        Formula::Given(data[tap(i / w, k, step, h) * w + i % w]),
    )
}

/// The vertical pass at place `i`: the weighted rows around it, added up.
pub open spec fn vertical_at<T>(data: Seq<T>, step: int, w: int, h: int, i: int) -> Formula<T> {
    vertical_term(data, step, w, h, i, 0).plus(vertical_term(data, step, w, h, i, 1)).plus(
        vertical_term(data, step, w, h, i, 2),
    ).plus(vertical_term(data, step, w, h, i, 3)).plus(vertical_term(data, step, w, h, i, 4))
}

/// The first `n` terms of the horizontal pass at place `i`, starting from zero.
pub open spec fn horizontal_at<T>(data: Seq<T>, step: int, w: int, i: int, n: int) -> Formula<T>
    decreases n,
{
    if n <= 0 {
        whole(0)
    } else {
        horizontal_at(data, step, w, i, n - 1).plus(
            Formula::Ratio(spline_weight(n - 1), 16).times(
                Formula::Given(data[(i / w) * w + tap(i % w, n - 1, step, w)]),
            ),
        )
    }
}

/// `out` smooths `data` with holes of size `step`, through the vertically
/// smoothed plane `mid`.
pub open spec fn smooths_via<T, A: Arithmetic<T>>(
    ops: &A,
    data: Seq<T>,
    step: int,
    w: int,
    h: int,
    mid: Seq<T>,
    out: Seq<T>,
) -> bool {
    &&& mid.len() == data.len()
    &&& out.len() == data.len()
    &&& forall|i: int|
        0 <= i < data.len() ==> evals(ops, vertical_at(data, step, w, h, i), #[trigger] mid[i])
    &&& forall|i: int|
        0 <= i < data.len() ==> evals(ops, horizontal_at(mid, step, w, i, 5), #[trigger] out[i])
}

/// `out` is the separable B3-spline smoothing of `data` with holes of size
/// `step`.
pub open spec fn smooths<T, A: Arithmetic<T>>(
    ops: &A,
    data: Seq<T>,
    step: int,
    w: int,
    h: int,
    out: Seq<T>,
) -> bool {
    exists|mid: Seq<T>| #[trigger] smooths_via(ops, data, step, w, h, mid, out)
}

/// Weight `k` of the kernel.
fn weight(k: usize) -> (r: u64)
    requires
        k < 5,
    ensures
        r == spline_weight(k as int),
{
    if k == 0 || k == 4 {
        1
    } else if k == 1 || k == 3 {
        4
    } else {
        6
    }
}

/// One weighted sample of the vertical pass.
fn vertical_product<T: Sample, A: Arithmetic<T>>(
    ops: &A,
    data: &[T],
    step: usize,
    w: usize,
    h: usize,
    i: usize,
    k: usize,
) -> (r: Traced<T>)
    requires
        data@.len() == w * h,
        i < data@.len(),
        step <= 64,
        k < 5,
    ensures
        r.holds(ops),
        r.formula@ == vertical_term(data@, step as int, w as int, h as int, i as int, k as int),
{
    proof {
        lemma_place(i as int, w as int, h as int);
    }
    let y = i / w;
    assert(-128 <= (k - 2) * step <= 128) by (nonlinear_arith)
        requires
            0 <= k < 5,
            0 <= step <= 64,
    ;
    let shift: i128 = (k as i128 - 2) * (step as i128);
    let sy = reflect(y as i128 + shift, h);
    proof {
        lemma_pixel((i % w) as int, sy as int, w as int, h as int);
        assert(data.len() == w * h);
    }
    Traced::ratio(ops, weight(k), 16).times(ops, Traced::given(ops, data[sy * w + i % w]))
}

/// One sample of the vertical pass.
fn vertical_sample<T: Sample, A: Arithmetic<T>>(
    ops: &A,
    data: &[T],
    step: usize,
    w: usize,
    h: usize,
    i: usize,
) -> (r: T)
    requires
        data@.len() == w * h,
        i < data@.len(),
        step <= 64,
    ensures
        evals(ops, vertical_at(data@, step as int, w as int, h as int, i as int), r),
{
    let first = vertical_product(ops, data, step, w, h, i, 0).plus(
        ops,
        vertical_product(ops, data, step, w, h, i, 1),
    );
    let second = first.plus(ops, vertical_product(ops, data, step, w, h, i, 2));
    let third = second.plus(ops, vertical_product(ops, data, step, w, h, i, 3));
    third.plus(ops, vertical_product(ops, data, step, w, h, i, 4)).value
}

/// One sample of the horizontal pass.
fn horizontal_sample<T: Sample, A: Arithmetic<T>>(
    ops: &A,
    data: &[T],
    step: usize,
    w: usize,
    h: usize,
    i: usize,
) -> (r: T)
    requires
        data@.len() == w * h,
        i < data@.len(),
        step <= 64,
    ensures
        evals(ops, horizontal_at(data@, step as int, w as int, i as int, 5), r),
{
    let mut acc = Traced::whole(ops, 0);
    let mut k: usize = 0;
    while k < 5
        invariant
            data@.len() == w * h,
            i < data@.len(),
            step <= 64,
            k <= 5,
            acc.holds(ops),
            acc.formula@ == horizontal_at(data@, step as int, w as int, i as int, k as int),
        decreases 5 - k,
    {
        proof {
            lemma_place(i as int, w as int, h as int);
        }
        let x = i % w;
        assert(-128 <= (k - 2) * step <= 128) by (nonlinear_arith)
            requires
                0 <= k < 5,
                0 <= step <= 64,
        ;
        let shift: i128 = (k as i128 - 2) * (step as i128);
        let sx = reflect(x as i128 + shift, w);
        proof {
            lemma_pixel(sx as int, (i / w) as int, w as int, h as int);
            assert(data.len() == w * h);
        }
        let term = Traced::ratio(ops, weight(k), 16).times(
            ops,
            Traced::given(ops, data[(i / w) * w + sx]),
        );
        acc = acc.plus(ops, term);
        k += 1;
    }
    acc.value
}

/// Separable B3-spline smoothing with holes ("à trous") of size `step`.
fn b3_smooth<T: Sample, A: Arithmetic<T>>(
    ops: &A,
    data: &[T],
    step: usize,
    width: usize,
    height: usize,
) -> (out: Vec<T>)
    requires
        data@.len() == width * height,
        step <= 64,
    ensures
        out@.len() == data@.len(),
        smooths(ops, data@, step as int, width as int, height as int, out@),
{
    let mid = b3_pass_vertical(ops, data, step, width, height);
    let out = b3_pass_horizontal(ops, mid.as_slice(), step, width, height);
    assert(smooths_via(ops, data@, step as int, width as int, height as int, mid@, out@));
    out
}

/// Vertical pass: each sample is the weighted sum of the rows around it.
fn b3_pass_vertical<T: Sample, A: Arithmetic<T>>(
    ops: &A,
    data: &[T],
    step: usize,
    width: usize,
    height: usize,
) -> (out: Vec<T>)
    requires
        data@.len() == width * height,
        step <= 64,
    ensures
        out@.len() == data@.len(),
        forall|i: int|
            0 <= i < data@.len() ==> evals(
                ops,
                vertical_at(data@, step as int, width as int, height as int, i),
                #[trigger] out@[i],
            ),
{
    let at = |i: usize| -> (r: T)
        requires
            data@.len() == width * height,
            i < data@.len(),
            step <= 64,
        ensures
            evals(ops, vertical_at(data@, step as int, width as int, height as int, i as int), r),
    {
        vertical_sample(ops, data, step, width, height, i)
    };
    par_map(data.len(), at)
}

/// Horizontal pass: each sample is the weighted sum of the columns around it.
fn b3_pass_horizontal<T: Sample, A: Arithmetic<T>>(
    ops: &A,
    data: &[T],
    step: usize,
    width: usize,
    height: usize,
) -> (out: Vec<T>)
    requires
        data@.len() == width * height,
        step <= 64,
    ensures
        out@.len() == data@.len(),
        forall|i: int|
            0 <= i < data@.len() ==> evals(
                ops,
                horizontal_at(data@, step as int, width as int, i, 5),
                #[trigger] out@[i],
            ),
{
    let at = |i: usize| -> (r: T)
        requires
            data@.len() == width * height,
            i < data@.len(),
            step <= 64,
        ensures
            evals(ops, horizontal_at(data@, step as int, width as int, i as int, 5), r),
    {
        horizontal_sample(ops, data, step, width, height, i)
    };
    par_map(data.len(), at)
}

/// Noise standard deviation of a starlet scale for unit-variance Gaussian
/// input (2D, B3 spline), after Starck & Murtagh. Beyond the table each scale
/// roughly halves.
pub open spec fn noise_level_of<T>(scale: int) -> Formula<T> {
    if scale == 0 {
        Formula::Ratio(8907, 10000)
    } else if scale == 1 {
        Formula::Ratio(2007, 10000)
    } else if scale == 2 {
        Formula::Ratio(855, 10000)
    } else if scale == 3 {
        Formula::Ratio(412, 10000)
    } else if scale == 4 {
        Formula::Ratio(203, 10000)
    } else if scale == 5 {
        Formula::Ratio(102, 10000)
    } else if scale == 6 {
        Formula::Ratio(51, 10000)
    } else {
        Formula::Ratio(51, 10000).times(Formula::Ratio(1, 2).power((scale - 6) as usize))
    }
}

/// Noise standard deviation of a starlet scale for unit-variance input noise.
fn noise_level<T: Sample, A: Arithmetic<T>>(ops: &A, scale: usize) -> (r: Traced<T>)
    ensures
        r.holds(ops),
        r.formula@ == noise_level_of::<T>(scale as int),
{
    if scale == 0 {
        Traced::ratio(ops, 8907, 10000)
    } else if scale == 1 {
        Traced::ratio(ops, 2007, 10000)
    } else if scale == 2 {
        Traced::ratio(ops, 855, 10000)
    } else if scale == 3 {
        Traced::ratio(ops, 412, 10000)
    } else if scale == 4 {
        Traced::ratio(ops, 203, 10000)
    } else if scale == 5 {
        Traced::ratio(ops, 102, 10000)
    } else if scale == 6 {
        Traced::ratio(ops, 51, 10000)
    } else {
        let half = Traced::ratio(ops, 1, 2);
        Traced::ratio(ops, 51, 10000).times(ops, half.power(ops, scale - 6))
    }
}

/// How many scales fit an image: the kernel spans `4 * 2^j + 1` pixels at
/// scale `j`, which has to stay inside the smaller dimension, and there are
/// never more than six.
pub open spec fn scale_limit(min_dim: int) -> int {
    if min_dim <= 9 {
        1
    } else if min_dim <= 17 {
        2
    } else if min_dim <= 33 {
        3
    } else if min_dim <= 65 {
        4
    } else if min_dim <= 129 {
        5
    } else {
        6
    }
}

/// The number of scales to use: what was asked for, at least one and no more
/// than fit.
pub open spec fn scales_used(n_scales: int, w: int, h: int) -> int {
    let limit = scale_limit(if w < h {
        w
    } else {
        h
    });
    if n_scales < 1 {
        1
    } else if n_scales > limit {
        limit
    } else {
        n_scales
    }
}

/// The number of scales for an image.
fn clamp_scales(n_scales: usize, width: usize, height: usize) -> (r: usize)
    ensures
        r == scales_used(n_scales as int, width as int, height as int),
        1 <= r <= 6,
{
    let min_dim = if width < height {
        width
    } else {
        height
    };
    let mut max_scales: usize = 1;
    let mut span: usize = 8;
    while span + 1 < min_dim && max_scales < 6
        invariant
            1 <= max_scales <= 6,
            span == 8 && max_scales == 1 || span == 16 && max_scales == 2 || span == 32
                && max_scales == 3 || span == 64 && max_scales == 4 || span == 128 && max_scales
                == 5 || span == 256 && max_scales == 6,
            max_scales > 1 ==> span / 2 + 1 < min_dim,
        decreases 6 - max_scales,
    {
        max_scales += 1;
        span = span * 2;
    }
    if n_scales < 1 {
        1
    } else if n_scales > max_scales {
        max_scales
    } else {
        n_scales
    }
}

/// The size of the holes at a scale.
pub open spec fn stride(scale: int) -> int
    decreases scale,
{
    if scale <= 0 {
        1
    } else {
        2 * stride(scale - 1)
    }
}

/// The planes of the à trous decomposition: each of `coarse` smooths the one
/// before it, starting from the channel itself, and each of `details` is the
/// difference between two neighbours.
pub open spec fn decomposes<T, A: Arithmetic<T>>(
    ops: &A,
    channel: Seq<T>,
    w: int,
    h: int,
    coarse: Seq<Seq<T>>,
    details: Seq<Seq<T>>,
) -> bool {
    &&& coarse.len() == details.len() + 1
    &&& coarse[0] == channel
    &&& forall|j: int|
        0 <= j < details.len() ==> #[trigger] decomposes_at(ops, w, h, coarse, details, j)
}

/// Scale `j` of the decomposition.
pub open spec fn decomposes_at<T, A: Arithmetic<T>>(
    ops: &A,
    w: int,
    h: int,
    coarse: Seq<Seq<T>>,
    details: Seq<Seq<T>>,
    j: int,
) -> bool {
    &&& smooths(ops, coarse[j], stride(j), w, h, coarse[j + 1])
    &&& is_difference(ops, coarse[j], coarse[j + 1], details[j])
}

/// `out` is the difference of two planes.
pub open spec fn is_difference<T, A: Arithmetic<T>>(
    ops: &A,
    a: Seq<T>,
    b: Seq<T>,
    out: Seq<T>,
) -> bool {
    &&& out.len() == a.len()
    &&& forall|i: int|
        0 <= i < out.len() ==> evals(
            ops,
            Formula::Given(a[i]).minus(Formula::Given(b[i])),
            #[trigger] out[i],
        )
}

/// The absolute values of a plane, as formulas.
pub open spec fn magnitudes<T>(plane: Seq<T>) -> Seq<Formula<T>> {
    Seq::new(plane.len(), |i: int| Formula::Given(plane[i]).abs())
}

/// The noise sigma from the median magnitude of the finest detail plane.
pub open spec fn sigma_of<T>(median: T) -> Formula<T> {
    Formula::Given(median).over(Formula::Ratio(6745, 10000)).over(noise_level_of(0))
}

/// `sigma` is the noise estimate of the finest detail plane: its median
/// magnitude (MAD), scaled to a standard deviation.
pub open spec fn is_noise_sigma<T, A: Arithmetic<T>>(ops: &A, finest: Seq<T>, sigma: T) -> bool {
    exists|abs: Seq<T>, median: T|
        evals_all(ops, magnitudes(finest), abs) && #[trigger] is_median(ops, abs, median) && evals(
            ops,
            sigma_of(median),
            sigma,
        )
}

/// The threshold of a scale: the finest one uses one more sigma.
pub open spec fn threshold_of<T>(threshold: T, sigma: T, scale: int) -> Formula<T> {
    let k = if scale == 0 {
        Formula::Given(threshold).plus(whole(1))
    } else {
        Formula::Given(threshold)
    };
    k.times(Formula::Given(sigma)).times(noise_level_of(scale))
}

/// What thresholding leaves of a detail coefficient: in hard mode all of it
/// where it exceeds the threshold and nothing elsewhere, in soft mode what
/// exceeds the threshold.
pub open spec fn thresholded<T>(mode: ThresholdMode, d: T, t: T) -> Formula<T> {
    match mode {
        ThresholdMode::Soft => Formula::Given(d).apply(Unary::Signum).times(
            Formula::Given(d).abs().minus(Formula::Given(t)).most(whole(0)),
        ),
        ThresholdMode::Hard => Formula::select(
            Test::Less,
            Formula::Given(t),
            Formula::Given(d).abs(),
            Formula::Given(d),
            whole(0),
        ),
    }
}

/// The reconstruction: starting from the coarse residual, each of `sums` adds
/// one thresholded detail plane to the one before it.
pub open spec fn rebuilds<T, A: Arithmetic<T>>(
    ops: &A,
    params: DenoiseParams<T>,
    sigma: T,
    residual: Seq<T>,
    details: Seq<Seq<T>>,
    limits: Seq<T>,
    sums: Seq<Seq<T>>,
) -> bool {
    &&& sums.len() == limits.len() + 1
    &&& limits.len() <= details.len()
    &&& sums[0] == residual
    &&& forall|j: int|
        0 <= j < limits.len() ==> #[trigger] rebuilds_at(
            ops,
            params,
            sigma,
            details,
            limits,
            sums,
            j,
        )
}

/// Scale `j` of the reconstruction.
pub open spec fn rebuilds_at<T, A: Arithmetic<T>>(
    ops: &A,
    params: DenoiseParams<T>,
    sigma: T,
    details: Seq<Seq<T>>,
    limits: Seq<T>,
    sums: Seq<Seq<T>>,
    j: int,
) -> bool {
    &&& evals(ops, threshold_of(params.threshold, sigma, j), limits[j])
    &&& adds_detail(ops, params.mode, sums[j], details[j], limits[j], sums[j + 1])
}

/// `out` is `sum` with a thresholded detail plane added.
pub open spec fn adds_detail<T, A: Arithmetic<T>>(
    ops: &A,
    mode: ThresholdMode,
    sum: Seq<T>,
    detail: Seq<T>,
    limit: T,
    out: Seq<T>,
) -> bool {
    &&& out.len() == sum.len()
    &&& forall|i: int|
        0 <= i < out.len() ==> evals(
            ops,
            Formula::Given(sum[i]).plus(thresholded(mode, detail[i], limit)),
            #[trigger] out[i],
        )
}

/// `out` is the denoised channel, by this decomposition and noise estimate.
pub open spec fn is_denoised_by<T, A: Arithmetic<T>>(
    ops: &A,
    params: DenoiseParams<T>,
    channel: Seq<T>,
    w: int,
    h: int,
    coarse: Seq<Seq<T>>,
    details: Seq<Seq<T>>,
    sigma: T,
    out: Seq<T>,
) -> bool {
    &&& details.len() == scales_used(params.n_scales as int, w, h)
    &&& decomposes(ops, channel, w, h, coarse, details)
    &&& is_noise_sigma(ops, details[0], sigma)
    &&& exists|quiet: bool| #[trigger]
        decides(ops, Test::LessOrEqual, Formula::Given(sigma), whole(0), quiet) && if quiet {
            out == channel
        } else {
            exists|limits: Seq<T>, sums: Seq<Seq<T>>| #[trigger]
                rebuilds(ops, params, sigma, coarse.last(), details, limits, sums)
                    && limits.len() == details.len() && out == sums.last()
        }
}

/// `out` is the denoised channel: its starlet detail planes thresholded
/// against the noise estimate and added back to the coarse residual, or the
/// channel itself where no noise is found.
pub open spec fn is_denoised<T, A: Arithmetic<T>>(
    ops: &A,
    params: DenoiseParams<T>,
    channel: Seq<T>,
    w: int,
    h: int,
    out: Seq<T>,
) -> bool {
    exists|coarse: Seq<Seq<T>>, details: Seq<Seq<T>>, sigma: T| #[trigger]
        is_denoised_by(ops, params, channel, w, h, coarse, details, sigma, out)
}

/// The difference of two planes.
fn difference<T: Sample, A: Arithmetic<T>>(ops: &A, a: &[T], b: &[T]) -> (out: Vec<T>)
    requires
        a@.len() == b@.len(),
    ensures
        is_difference(ops, a@, b@, out@),
{
    let at = |i: usize| -> (r: T)
        requires
            a@.len() == b@.len(),
            i < a@.len(),
        ensures
            evals(ops, Formula::Given(a@[i as int]).minus(Formula::Given(b@[i as int])), r),
    {
        Traced::given(ops, a[i]).minus(ops, Traced::given(ops, b[i])).value
    };
    par_map(a.len(), at)
}

/// Noise sigma of the finest detail plane.
fn noise_sigma<T: Sample, A: Arithmetic<T>>(ops: &A, finest: &[T]) -> (sigma: T)
    ensures
        is_noise_sigma(ops, finest@, sigma),
{
    let at = |i: usize| -> (r: T)
        requires
            i < finest@.len(),
        ensures
            evals(ops, Formula::Given(finest@[i as int]).abs(), r),
    {
        Traced::given(ops, finest[i]).apply(ops, Unary::Abs).value
    };
    let abs = par_map(finest.len(), at);
    assert(evals_all(ops, magnitudes(finest@), abs@));
    let median = median_of(ops, abs.as_slice());
    let mad = Traced::given(ops, median).over(ops, Traced::ratio(ops, 6745, 10000));
    mad.over(ops, noise_level(ops, 0)).value
}

/// One sample of the reconstruction.
fn restored_sample<T: Sample, A: Arithmetic<T>>(
    ops: &A,
    mode: ThresholdMode,
    sum: T,
    d: T,
    t: T,
) -> (r: T)
    ensures
        evals(ops, Formula::Given(sum).plus(thresholded(mode, d, t)), r),
{
    let detail = Traced::given(ops, d);
    let limit = Traced::given(ops, t);
    let zero = Traced::whole(ops, 0);
    let size = detail.apply(ops, Unary::Abs);
    let kept = match mode {
        ThresholdMode::Soft => {
            let rest = size.minus(ops, limit).with(ops, Binary::Most, zero);
            detail.apply(ops, Unary::Signum).times(ops, rest)
        },
        ThresholdMode::Hard => {
            let above = limit.test(ops, Test::Less, size);
            let value = if above {
                detail.value
            } else {
                zero.value
            };
            proof {
                lemma_select(
                    ops,
                    Test::Less,
                    limit.formula@,
                    size.formula@,
                    above,
                    detail.formula@,
                    zero.formula@,
                    value,
                );
            }
            Traced { value, formula: Ghost(thresholded(ThresholdMode::Hard, d, t)) }
        },
    };
    Traced::given(ops, sum).plus(ops, kept).value
}

/// Adds a thresholded detail plane.
fn add_detail<T: Sample, A: Arithmetic<T>>(
    ops: &A,
    mode: ThresholdMode,
    sum: &[T],
    detail: &[T],
    limit: T,
) -> (out: Vec<T>)
    requires
        sum@.len() == detail@.len(),
    ensures
        adds_detail(ops, mode, sum@, detail@, limit, out@),
{
    let at = |i: usize| -> (r: T)
        requires
            sum@.len() == detail@.len(),
            i < sum@.len(),
        ensures
            evals(
                ops,
                Formula::Given(sum@[i as int]).plus(thresholded(mode, detail@[i as int], limit)),
                r,
            ),
    {
        restored_sample(ops, mode, sum[i], detail[i], limit)
    };
    par_map(sum.len(), at)
}

/// Denoises one row-major channel.
fn denoise_channel<T: Sample, A: Arithmetic<T>>(
    ops: &A,
    channel: &[T],
    width: usize,
    height: usize,
    params: &DenoiseParams<T>,
) -> (out: Vec<T>)
    requires
        channel@.len() == width * height,
    ensures
        out@.len() == channel@.len(),
        is_denoised(ops, *params, channel@, width as int, height as int, out@),
{
    let n_scales = clamp_scales(params.n_scales, width, height);
    let ghost (w, h) = (width as int, height as int);

    // À trous decomposition: detail scales + smooth residual
    let mut c = copied(channel);
    let ghost mut coarse: Seq<Seq<T>> = seq![channel@];
    let mut details: Vec<Vec<T>> = Vec::with_capacity(n_scales);
    let mut step: usize = 1;
    let mut j: usize = 0;
    while j < n_scales
        invariant
            1 <= n_scales <= 6,
            channel@.len() == width * height,
            w == width,
            h == height,
            j <= n_scales,
            step == stride(j as int),
            j == 0 && step == 1 || j == 1 && step == 2 || j == 2 && step == 4 || j == 3 && step == 8
                || j == 4 && step == 16 || j == 5 && step == 32 || j == 6 && step == 64,
            details@.len() == j,
            c@.len() == channel@.len(),
            c@ == coarse.last(),
            forall|k: int| 0 <= k < j ==> (#[trigger] details@[k])@.len() == channel@.len(),
            decomposes(ops, channel@, w, h, coarse, views(details@)),
        decreases n_scales - j,
    {
        let smooth = b3_smooth(ops, c.as_slice(), step, width, height);
        let detail = difference(ops, c.as_slice(), smooth.as_slice());
        let ghost earlier = views(details@);
        let ghost earlier_coarse = coarse;
        details.push(detail);
        proof {
            coarse = coarse.push(smooth@);
            let now = views(details@);
            assert(now =~= earlier.push(detail@));
            assert forall|k: int| 0 <= k < now.len() implies #[trigger] decomposes_at(
                ops,
                w,
                h,
                coarse,
                now,
                k,
            ) by {
                if k < j {
                    assert(decomposes_at(ops, w, h, earlier_coarse, earlier, k));
                }
            }
            assert(coarse[0] == earlier_coarse[0]);
            assert(decomposes(ops, channel@, w, h, coarse, now));
        }
        c = smooth;
        step = step * 2;
        j += 1;
    }

    let sigma = noise_sigma(ops, details[0].as_slice());
    assert(is_noise_sigma(ops, views(details@)[0], sigma));
    let quiet = Traced::given(ops, sigma).test(ops, Test::LessOrEqual, Traced::whole(ops, 0));
    if quiet {
        // No detectable noise: return the input unchanged
        let out = copied(channel);
        assert(is_denoised_by(
            ops,
            *params,
            channel@,
            w,
            h,
            coarse,
            views(details@),
            sigma,
            out@,
        ));
        return out;
    }

    // Threshold detail scales and reconstruct (residual passes untouched)
    let mut result = c;
    let ghost mut limits: Seq<T> = Seq::empty();
    let ghost mut sums: Seq<Seq<T>> = seq![result@];
    let mut j: usize = 0;
    while j < n_scales
        invariant
            j <= n_scales,
            details@.len() == n_scales,
            forall|k: int| 0 <= k < n_scales ==> (#[trigger] details@[k])@.len() == channel@.len(),
            result@.len() == channel@.len(),
            result@ == sums.last(),
            limits.len() == j,
            rebuilds(ops, *params, sigma, coarse.last(), views(details@), limits, sums),
        decreases n_scales - j,
    {
        let base = Traced::given(ops, params.threshold);
        let k = if j == 0 {
            base.plus(ops, Traced::whole(ops, 1))
        } else {
            base
        };
        let scaled = k.times(ops, Traced::given(ops, sigma));
        let limit = scaled.times(ops, noise_level(ops, j)).value;
        let next = add_detail(ops, params.mode, result.as_slice(), details[j].as_slice(), limit);
        proof {
            let earlier = limits;
            let earlier_sums = sums;
            limits = limits.push(limit);
            sums = sums.push(next@);
            let all = views(details@);
            assert forall|k: int| 0 <= k < limits.len() implies #[trigger] rebuilds_at(
                ops,
                *params,
                sigma,
                all,
                limits,
                sums,
                k,
            ) by {
                if k < j {
                    assert(rebuilds_at(ops, *params, sigma, all, earlier, earlier_sums, k));
                }
            }
        }
        result = next;
        j += 1;
    }
    assert(is_denoised_by(
        ops,
        *params,
        channel@,
        w,
        h,
        coarse,
        views(details@),
        sigma,
        result@,
    ));
    result
}

/// Every channel of `out` is the denoised channel of `image`.
pub open spec fn is_denoised_image<T, A: Arithmetic<T>>(
    ops: &A,
    params: DenoiseParams<T>,
    image: Raster<T>,
    out: Raster<T>,
) -> bool {
    &&& out.same_shape(image)
    &&& forall|c: int|
        0 <= c < out.planes.len() ==> is_denoised(
            ops,
            params,
            image.planes[c],
            image.width as int,
            image.height as int,
            #[trigger] out.planes[c],
        )
}

/// Denoise image data using starlet wavelet thresholding.
///
/// Decomposes each channel into wavelet detail scales plus a smooth residual,
/// estimates the noise sigma from the finest scale, thresholds the detail
/// coefficients, and reconstructs. Coefficients well above the noise (stars,
/// structure) survive; the smooth residual (nebulosity, background) is never
/// touched. Values are not clipped or rescaled.
pub fn denoise<T: Sample, A: Arithmetic<T>>(
    ops: &A,
    image: &Image<T>,
    params: &DenoiseParams<T>,
) -> (out: Image<T>)
    requires
        image@.wf(),
    ensures
        out@.wf(),
        is_denoised_image(ops, *params, image@, out@),
{
    let w = image.width();
    let h = image.height();
    let mut channels: Vec<Vec<T>> = Vec::new();
    let mut c: usize = 0;
    while c < image.num_channels()
        invariant
            image@.wf(),
            w == image@.width,
            h == image@.height,
            c <= image@.planes.len(),
            channels@.len() == c,
            forall|k: int|
                0 <= k < c ==> (#[trigger] channels@[k])@.len() == w * h && is_denoised(
                    ops,
                    *params,
                    image@.planes[k],
                    w as int,
                    h as int,
                    channels@[k]@,
                ),
        decreases image@.planes.len() - c,
    {
        let plane = denoise_channel(ops, image.channel(c), w, h, params);
        channels.push(plane);
        c += 1;
    }
    let out = Image::from_channels(w, h, channels);
    assert forall|k: int| 0 <= k < out@.planes.len() implies is_denoised(
        ops,
        *params,
        image@.planes[k],
        w as int,
        h as int,
        #[trigger] out@.planes[k],
    ) by {
        assert(out@.planes[k] == channels@[k]@);
    }
    out
}

} // verus!
