//! Planar image container shared by all processing stages.

use crate::arith::{Arithmetic, Formula, Sample, Traced, evals, whole};
use crate::autocrop::CropBounds;
use crate::parallel::par_map;
use crate::plane::{
    bounds_fit, copied, crop_plane, crop_samples, filled, lemma_crop_size, lemma_pixel, lemma_place,
    map_plane, maps,
};
use vstd::prelude::*;

verus! {

/// What an image holds: its dimensions and its row-major planes.
#[verifier::ext_equal]
pub struct Raster<T> {
    pub width: nat,
    pub height: nat,
    pub planes: Seq<Seq<T>>,
}

impl<T> Raster<T> {
    /// One or three planes, each of `width * height` samples.
    pub open spec fn wf(self) -> bool {
        &&& self.planes.len() == 1 || self.planes.len() == 3
        &&& self.width * self.height <= usize::MAX
        &&& forall|c: int|
            0 <= c < self.planes.len() ==> (#[trigger] self.planes[c]).len() == self.width
                * self.height
    }

    /// Same dimensions and channel count.
    pub open spec fn same_shape<U>(self, other: Raster<U>) -> bool {
        &&& self.width == other.width
        &&& self.height == other.height
        &&& self.planes.len() == other.planes.len()
    }

    /// The number of samples in all planes.
    pub open spec fn samples(self) -> nat {
        self.planes.len() * (self.width * self.height)
    }

    /// The interior after removing `(top, bottom, left, right)` pixels.
    pub open spec fn crop(self, bounds: CropBounds) -> Raster<T> {
        Raster {
            width: (self.width - bounds.2 - bounds.3) as nat,
            height: (self.height - bounds.0 - bounds.1) as nat,
            planes: Seq::new(
                self.planes.len(),
                |c: int| crop_plane(self.planes[c], self.width as int, self.height as int, bounds),
            ),
        }
    }
}

/// The planes of a vector of planes.
pub open spec fn views<T>(planes: Seq<Vec<T>>) -> Seq<Seq<T>> {
    Seq::new(planes.len(), |c: int| planes[c]@)
}

/// The mean of the channels at one pixel: the sum from the first channel on,
/// times one over the number of channels.
pub open spec fn luminance_at<T>(planes: Seq<Seq<T>>, i: int) -> Formula<T> {
    channel_sum(planes, i, planes.len() as int).times(
        whole(1).over(Formula::Count(planes.len() as usize)),
    )
}

/// The sum of the first `n` channels at one pixel, starting from zero.
pub open spec fn channel_sum<T>(planes: Seq<Seq<T>>, i: int, n: int) -> Formula<T>
    decreases n,
{
    if n <= 0 {
        whole(0)
    } else {
        channel_sum(planes, i, n - 1).plus(Formula::Given(planes[n - 1][i]))
    }
}

/// `lum` is the luminance plane of the image: the plane itself for one
/// channel, the channel means for more.
pub open spec fn is_luminance<T, A: Arithmetic<T>>(ops: &A, image: Raster<T>, lum: Seq<T>) -> bool {
    &&& lum.len() == image.width * image.height
    &&& if image.planes.len() == 1 {
        lum == image.planes[0]
    } else {
        forall|i: int|
            0 <= i < lum.len() ==> evals(ops, luminance_at(image.planes, i), #[trigger] lum[i])
    }
}

/// A mono or RGB image stored as planar channels.
///
/// Each channel is a row-major `width * height` plane of samples, plane after
/// plane as astronomical FITS files lay them out.
#[derive(Debug, PartialEq)]
pub struct Image<T> {
    width: usize,
    height: usize,
    channels: Vec<Vec<T>>,
}

impl<T> View for Image<T> {
    type V = Raster<T>;

    closed spec fn view(&self) -> Raster<T> {
        Raster {
            width: self.width as nat,
            height: self.height as nat,
            planes: views(self.channels@),
        }
    }
}

impl<T: Copy> Clone for Image<T> {
    fn clone(&self) -> (r: Self)
        ensures
            r@ == self@,
    {
        let mut channels: Vec<Vec<T>> = Vec::new();
        let mut c: usize = 0;
        while c < self.channels.len()
            invariant
                c <= self.channels@.len(),
                channels@.len() == c,
                forall|k: int| 0 <= k < c ==> (#[trigger] channels@[k])@ == self.channels@[k]@,
            decreases self.channels@.len() - c,
        {
            channels.push(copied(self.channels[c].as_slice()));
            c += 1;
        }
        let r = Image { width: self.width, height: self.height, channels };
        assert(r@.planes =~= self@.planes);
        r
    }
}

impl<T> Image<T> {
    /// Single-channel image from a row-major plane.
    pub fn new_mono(width: usize, height: usize, data: Vec<T>) -> (r: Self)
        requires
            data@.len() == width * height,
        ensures
            r@.wf(),
            r@ == (Raster { width: width as nat, height: height as nat, planes: seq![data@] }),
    {
        let mut channels: Vec<Vec<T>> = Vec::new();
        channels.push(data);
        let r = Self::from_channels(width, height, channels);
        assert(r@.planes =~= seq![data@]);
        r
    }

    /// Three-channel image from row-major R, G, B planes.
    pub fn new_rgb(width: usize, height: usize, channels: [Vec<T>; 3]) -> (r: Self)
        requires
            forall|c: int| 0 <= c < 3 ==> (#[trigger] channels@[c])@.len() == width * height,
        ensures
            r@.wf(),
            r@ == (Raster {
                width: width as nat,
                height: height as nat,
                planes: seq![channels@[0]@, channels@[1]@, channels@[2]@],
            }),
    {
        let mut source = channels;
        let mut red: Vec<T> = Vec::new();
        core::mem::swap(&mut red, &mut source[0]);
        let mut green: Vec<T> = Vec::new();
        core::mem::swap(&mut green, &mut source[1]);
        let mut blue: Vec<T> = Vec::new();
        core::mem::swap(&mut blue, &mut source[2]);
        let mut list: Vec<Vec<T>> = Vec::new();
        list.push(red);
        list.push(green);
        list.push(blue);
        let r = Self::from_channels(width, height, list);
        assert(r@.planes =~= seq![channels@[0]@, channels@[1]@, channels@[2]@]);
        r
    }

    /// Build from 1 (mono) or 3 (RGB) row-major planes.
    pub fn from_channels(width: usize, height: usize, channels: Vec<Vec<T>>) -> (r: Self)
        requires
            channels@.len() == 1 || channels@.len() == 3,
            forall|c: int|
                0 <= c < channels@.len() ==> (#[trigger] channels@[c])@.len() == width * height,
        ensures
            r@.wf(),
            r@ == (Raster {
                width: width as nat,
                height: height as nat,
                planes: views(channels@),
            }),
    {
        assert(channels@[0].len() == width * height);
        Image { width, height, channels }
    }

    pub fn width(&self) -> (r: usize)
        ensures
            r == self@.width,
    {
        self.width
    }

    pub fn height(&self) -> (r: usize)
        ensures
            r == self@.height,
    {
        self.height
    }

    pub fn num_channels(&self) -> (r: usize)
        ensures
            r == self@.planes.len(),
    {
        self.channels.len()
    }

    pub fn is_color(&self) -> (r: bool)
        ensures
            r == (self@.planes.len() == 3),
    {
        self.channels.len() == 3
    }

    /// Samples per channel (`width * height`).
    pub fn pixels_per_channel(&self) -> (r: usize)
        requires
            self@.wf(),
        ensures
            r == self@.width * self@.height,
    {
        self.width * self.height
    }

    pub fn channel(&self, i: usize) -> (r: &[T])
        requires
            i < self@.planes.len(),
        ensures
            r@ == self@.planes[i as int],
    {
        self.channels[i].as_slice()
    }

    pub fn channel_mut(&mut self, i: usize) -> (r: &mut [T])
        requires
            i < old(self)@.planes.len(),
        ensures
            r@ == old(self)@.planes[i as int],
            final(self)@.width == old(self)@.width,
            final(self)@.height == old(self)@.height,
            final(self)@.planes == old(self)@.planes.update(i as int, final(r)@),
    {
        self.channels[i].as_mut_slice()
    }

    pub fn channels(&self) -> (r: &[Vec<T>])
        ensures
            views(r@) == self@.planes,
    {
        self.channels.as_slice()
    }

    pub fn channels_mut(&mut self) -> (r: &mut [Vec<T>])
        ensures
            views(r@) == old(self)@.planes,
            final(self)@.width == old(self)@.width,
            final(self)@.height == old(self)@.height,
            final(self)@.planes == views(final(r)@),
    {
        self.channels.as_mut_slice()
    }

    pub fn into_channels(self) -> (r: Vec<Vec<T>>)
        ensures
            views(r@) == self@.planes,
    {
        self.channels
    }
}

impl<T: Copy> Image<T> {
    pub fn get(&self, x: usize, y: usize, c: usize) -> (r: T)
        requires
            self@.wf(),
            c < self@.planes.len(),
            y * self@.width + x < self@.width * self@.height,
        ensures
            r == self@.planes[c as int][y * self@.width + x],
    {
        assert(0 <= y * self.width) by (nonlinear_arith);
        let plane = self.channels[c].as_slice();
        assert(plane@ == self@.planes[c as int]);
        plane[y * self.width + x]
    }

    pub fn set(&mut self, x: usize, y: usize, c: usize, value: T)
        requires
            old(self)@.wf(),
            c < old(self)@.planes.len(),
            y * old(self)@.width + x < old(self)@.width * old(self)@.height,
        ensures
            final(self)@.wf(),
            final(self)@.same_shape(old(self)@),
            final(self)@.planes == old(self)@.planes.update(
                c as int,
                old(self)@.planes[c as int].update(y * old(self)@.width + x, value),
            ),
    {
        let ghost before = self@;
        assert(0 <= y * self.width) by (nonlinear_arith);
        let i: usize = y * self.width + x;
        let plane = self.channel_mut(c);
        plane[i] = value;
    }

    /// Copy of the interior after removing `(top, bottom, left, right)`
    /// pixels from the edges.
    pub fn crop(&self, bounds: CropBounds) -> (r: Self)
        requires
            self@.wf(),
            bounds_fit(self@.width as int, self@.height as int, bounds),
        ensures
            r@.wf(),
            r@ == self@.crop(bounds),
    {
        let (top, bottom, left, right) = bounds;
        let new_w: usize = self.width - left - right;
        let new_h: usize = self.height - top - bottom;
        proof {
            lemma_crop_size(self.width as int, self.height as int, bounds);
        }
        let mut channels: Vec<Vec<T>> = Vec::new();
        let mut c: usize = 0;
        while c < self.channels.len()
            invariant
                self@.wf(),
                bounds_fit(self@.width as int, self@.height as int, bounds),
                c <= self@.planes.len(),
                self.channels@.len() == self@.planes.len(),
                channels@.len() == c,
                forall|k: int|
                    0 <= k < c ==> (#[trigger] channels@[k])@ == self@.crop(bounds).planes[k],
            decreases self@.planes.len() - c,
        {
            let plane = self.channel_interior(c, bounds);
            channels.push(plane);
            c += 1;
        }
        let r = Image { width: new_w, height: new_h, channels };
        assert(r@ =~= self@.crop(bounds));
        assert forall|k: int| 0 <= k < r@.planes.len() implies (#[trigger] r@.planes[k]).len()
            == r@.width * r@.height by {
            assert(r@.planes[k] == self@.crop(bounds).planes[k]);
        }
        r
    }

    /// Interior samples of one channel as a flat buffer (for statistics).
    pub fn channel_interior(&self, c: usize, bounds: CropBounds) -> (r: Vec<T>)
        requires
            self@.wf(),
            c < self@.planes.len(),
            bounds_fit(self@.width as int, self@.height as int, bounds),
        ensures
            r@ == crop_plane(
                self@.planes[c as int],
                self@.width as int,
                self@.height as int,
                bounds,
            ),
    {
        let plane = self.channels[c].as_slice();
        assert(plane@ == self@.planes[c as int]);
        crop_samples(plane, self.width, self.height, bounds)
    }
}

impl<T: Sample> Image<T> {
    /// All-zero image with the same dimensions and channel count as `self`.
    pub fn zeros_like<A: Arithmetic<T>>(&self, ops: &A) -> (r: Self)
        requires
            self@.wf(),
        ensures
            r@.wf(),
            r@.same_shape(self@),
            exists|zero: T| #[trigger] is_filled(ops, r@, zero),
    {
        let zero = ops.ratio(0, 1);
        let n: usize = self.width * self.height;
        let mut channels: Vec<Vec<T>> = Vec::new();
        let mut c: usize = 0;
        while c < self.channels.len()
            invariant
                c <= self.channels@.len(),
                channels@.len() == c,
                forall|k: int|
                    0 <= k < c ==> (#[trigger] channels@[k])@ == Seq::new(n as nat, |i: int| zero),
            decreases self.channels@.len() - c,
        {
            channels.push(filled(n, zero));
            c += 1;
        }
        let r = Image { width: self.width, height: self.height, channels };
        assert(is_filled(ops, r@, zero));
        r
    }

    /// Channel-mean luminance plane (what edge detection runs on for RGB).
    pub fn luminance<A: Arithmetic<T>>(&self, ops: &A) -> (r: Vec<T>)
        requires
            self@.wf(),
        ensures
            is_luminance(ops, self@, r@),
    {
        if self.channels.len() == 1 {
            assert(self@.planes[0] == self.channels@[0]@);
            return copied(self.channels[0].as_slice());
        }
        let n: usize = self.width * self.height;
        let at = |i: usize| -> (r: T)
            requires
                self@.wf(),
                i < self@.width * self@.height,
            ensures
                evals(ops, luminance_at(self@.planes, i as int), r),
        {
            self.luminance_sample(ops, i)
        };
        par_map(n, at)
    }

    /// The channel mean at one pixel.
    fn luminance_sample<A: Arithmetic<T>>(&self, ops: &A, i: usize) -> (r: T)
        requires
            self@.wf(),
            i < self@.width * self@.height,
        ensures
            evals(ops, luminance_at(self@.planes, i as int), r),
    {
        let mut acc = Traced::whole(ops, 0);
        let mut c: usize = 0;
        while c < self.channels.len()
            invariant
                self@.wf(),
                i < self@.width * self@.height,
                c <= self.channels@.len(),
                acc.holds(ops),
                acc.formula@ == channel_sum(self@.planes, i as int, c as int),
            decreases self.channels@.len() - c,
        {
            let plane = self.channels[c].as_slice();
            assert(plane@ == self@.planes[c as int]);
            acc = acc.plus(ops, Traced::given(ops, plane[i]));
            c += 1;
        }
        let scale = Traced::whole(ops, 1).over(ops, Traced::count(ops, self.channels.len()));
        acc.times(ops, scale).value
    }
}

/// Every sample of `out` is a value of the formula `f` for the sample at its
/// place in `image`.
pub open spec fn maps_image<T, A: Arithmetic<T>>(
    ops: &A,
    f: spec_fn(T) -> Formula<T>,
    image: Raster<T>,
    out: Raster<T>,
) -> bool {
    &&& out.same_shape(image)
    &&& forall|c: int|
        0 <= c < out.planes.len() ==> maps(ops, f, image.planes[c], #[trigger] out.planes[c])
}

/// Applies `f` to every sample of every channel.
pub(crate) fn map_image<T: Sample, F: Fn(T) -> T + Sync + Send>(
    image: &Image<T>,
    f: &F,
) -> (out: Image<T>)
    requires
        image@.wf(),
        forall|v: T| call_requires(*f, (v,)),
    ensures
        out@.wf(),
        out@.same_shape(image@),
        forall|c: int, i: int|
            0 <= c < out@.planes.len() && 0 <= i < image@.width * image@.height ==> call_ensures(
                *f,
                (image@.planes[c][i],),
                #[trigger] out@.planes[c][i],
            ),
{
    let w = image.width();
    let h = image.height();
    let mut channels: Vec<Vec<T>> = Vec::new();
    let mut c: usize = 0;
    while c < image.num_channels()
        invariant
            image@.wf(),
            forall|v: T| call_requires(*f, (v,)),
            w == image@.width,
            h == image@.height,
            c <= image@.planes.len(),
            channels@.len() == c,
            forall|k: int| 0 <= k < c ==> (#[trigger] channels@[k])@.len() == w * h,
            forall|k: int, i: int|
                0 <= k < c && 0 <= i < w * h ==> call_ensures(
                    *f,
                    (image@.planes[k][i],),
                    #[trigger] channels@[k]@[i],
                ),
        decreases image@.planes.len() - c,
    {
        let plane = map_plane(image.channel(c), f);
        channels.push(plane);
        c += 1;
    }
    let out = Image::from_channels(w, h, channels);
    assert forall|k: int, i: int|
        0 <= k < out@.planes.len() && 0 <= i < image@.width * image@.height implies call_ensures(
        *f,
        (image@.planes[k][i],),
        #[trigger] out@.planes[k][i],
    ) by {
        assert(out@.planes[k] == channels@[k]@);
    }
    out
}

/// Cropping nothing away leaves the image as it is.
pub proof fn lemma_crop_nothing<T>(image: Raster<T>)
    requires
        image.wf(),
    ensures
        image.crop((0, 0, 0, 0)) == image,
{
    let out = image.crop((0, 0, 0, 0));
    let w = image.width as int;
    let h = image.height as int;
    assert forall|c: int| 0 <= c < out.planes.len() implies #[trigger] out.planes[c]
        == image.planes[c] by {
        assert forall|i: int| 0 <= i < w * h implies #[trigger] out.planes[c][i]
            == image.planes[c][i] by {
            lemma_place(i, w, h);
        }
        assert(out.planes[c] =~= image.planes[c]);
    }
    assert(out =~= image);
}

/// The pixel at `(x, y)` of a cropped image is the one at `(x + left, y + top)`
/// of the image.
pub proof fn lemma_crop_content<T>(image: Raster<T>, bounds: CropBounds, x: int, y: int, c: int)
    requires
        image.wf(),
        bounds_fit(image.width as int, image.height as int, bounds),
        0 <= x < image.crop(bounds).width,
        0 <= y < image.crop(bounds).height,
        0 <= c < image.planes.len(),
    ensures
        image.crop(bounds).planes[c][y * image.crop(bounds).width + x] == image.planes[c][(y
            + bounds.0) * image.width + x + bounds.2],
{
    let cols = image.width - bounds.2 - bounds.3;
    let rows = image.height - bounds.0 - bounds.1;
    lemma_pixel(x, y, cols, rows);
}

/// Every sample of the image is `zero`, a value of the arithmetic's zero.
pub open spec fn is_filled<T, A: Arithmetic<T>>(ops: &A, image: Raster<T>, zero: T) -> bool {
    &&& evals(ops, whole(0), zero)
    &&& forall|c: int|
        0 <= c < image.planes.len() ==> #[trigger] image.planes[c] == Seq::new(
            image.width * image.height,
            |i: int| zero,
        )
}

} // verus!
