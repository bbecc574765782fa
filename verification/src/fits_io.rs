//! FITS image layout and displayable image output.
//!
//! FITS files hold the planes of an image one after the other, rows fastest.
//! This module turns such data into an [`Image`] and back, and images into
//! displayable 8-bit ones.

use crate::arith::{Arithmetic, Formula, Sample, Traced, bytes_of, whole};
use crate::error::Error;
use crate::frame::{Image, Raster};
use crate::plane::{join, joined};
use crate::stretch::all_samples;
use image::{DynamicImage, GrayImage, RgbImage};
use vstd::prelude::*;

verus! {

// ---------------------------------------------------------------------------
// Planar data
// ---------------------------------------------------------------------------

/// A digit as a character.
pub open spec fn digit(d: nat) -> char {
    if d == 0 {
        '0'
    } else if d == 1 {
        '1'
    } else if d == 2 {
        '2'
    } else if d == 3 {
        '3'
    } else if d == 4 {
        '4'
    } else if d == 5 {
        '5'
    } else if d == 6 {
        '6'
    } else if d == 7 {
        '7'
    } else if d == 8 {
        '8'
    } else {
        '9'
    }
}

/// A number in decimal digits.
pub open spec fn decimal(n: nat) -> Seq<char>
    decreases n,
{
    if n < 10 {
        seq![digit(n)]
    } else {
        decimal(n / 10).push(digit(n % 10))
    }
}

/// What an error says of data that ends before the first plane does.
pub open spec fn truncation_text(expected: nat, got: nat) -> Seq<char> {
    "truncated FITS data: expected at least "@ + decimal(expected) + " samples, got "@ + decimal(
        got,
    )
}

/// The image in planar data: three planes where the data holds as many, one
/// otherwise. What follows the last plane is ignored.
pub open spec fn planar_image<T>(width: nat, height: nat, pixels: Seq<T>) -> Raster<T> {
    let plane = (width * height) as int;
    Raster {
        width,
        height,
        planes: if pixels.len() >= 3 * plane {
            seq![
                pixels.subrange(0, plane),
                pixels.subrange(plane, 2 * plane),
                pixels.subrange(2 * plane, 3 * plane),
            ]
        } else {
            seq![pixels.subrange(0, plane)]
        },
    }
}

/// The shape of planar data: width, height, and the number of channels of a
/// color image.
pub open spec fn shape_of<T>(image: Raster<T>) -> Seq<int> {
    if image.planes.len() == 3 {
        seq![image.width as int, image.height as int, 3]
    } else {
        seq![image.width as int, image.height as int]
    }
}

/// The image that planar data hold is the one that they were written from,
/// unless it is an empty mono image.
pub proof fn lemma_planar_round_trip<T>(image: Raster<T>)
    requires
        image.wf(),
        image.planes.len() == 3 || image.width * image.height > 0,
    ensures
        all_samples(image).len() >= shape_of(image)[0] * shape_of(image)[1],
        planar_image(
            shape_of(image)[0] as nat,
            shape_of(image)[1] as nat,
            all_samples(image),
        ) == image,
{
    let n = (image.width * image.height) as int;
    let all = all_samples(image);
    reveal_with_fuel(joined, 4);
    assert(image.planes[0].len() == n);
    let back = planar_image(image.width, image.height, all);
    if image.planes.len() == 3 {
        assert(image.planes[1].len() == n);
        assert(image.planes[2].len() == n);
        assert(all =~= image.planes[0] + image.planes[1] + image.planes[2]);
        assert(all.subrange(0, n) =~= image.planes[0]);
        assert(all.subrange(n, 2 * n) =~= image.planes[1]);
        assert(all.subrange(2 * n, 3 * n) =~= image.planes[2]);
    } else {
        assert(all =~= image.planes[0]);
        assert(all.subrange(0, n) =~= image.planes[0]);
    }
    assert(back.planes =~= image.planes);
    assert(back =~= image);
}

/// A number in decimal digits.
fn decimal_text(n: usize) -> (r: String)
    ensures
        r@ == decimal(n as nat),
    decreases n,
{
    proof {
        reveal_strlit("0");
        reveal_strlit("1");
        reveal_strlit("2");
        reveal_strlit("3");
        reveal_strlit("4");
        reveal_strlit("5");
        reveal_strlit("6");
        reveal_strlit("7");
        reveal_strlit("8");
        reveal_strlit("9");
    }
    let d = n % 10;
    let last = if d == 0 {
        "0"
    } else if d == 1 {
        "1"
    } else if d == 2 {
        "2"
    } else if d == 3 {
        "3"
    } else if d == 4 {
        "4"
    } else if d == 5 {
        "5"
    } else if d == 6 {
        "6"
    } else if d == 7 {
        "7"
    } else if d == 8 {
        "8"
    } else {
        "9"
    };
    assert(last@ =~= seq![digit(d as nat)]);
    if n < 10 {
        last.to_owned()
    } else {
        let mut text = decimal_text(n / 10);
        text.append(last);
        assert(text@ =~= decimal(n as nat));
        text
    }
}

/// What an error says of data that ends before the first plane does.
fn truncation_message(expected: usize, got: usize) -> (r: String)
    ensures
        r@ == truncation_text(expected as nat, got as nat),
{
    let mut text = "truncated FITS data: expected at least ".to_owned();
    text.append(decimal_text(expected).as_str());
    text.append(" samples, got ");
    text.append(decimal_text(got).as_str());
    text
}

/// A run of samples.
fn run<T: Copy>(pixels: &Vec<T>, start: usize, n: usize) -> (out: Vec<T>)
    requires
        start + n <= pixels@.len(),
    ensures
        out@ == pixels@.subrange(start as int, start + n),
{
    let len = pixels.len();
    let mut out: Vec<T> = Vec::with_capacity(n);
    let mut i: usize = 0;
    while i < n
        invariant
            i <= n,
            len == pixels@.len(),
            start + n <= len,
            out@ =~= pixels@.subrange(start as int, start + i),
        decreases n - i,
    {
        out.push(pixels[start + i]);
        i += 1;
    }
    out
}

/// Build an [`Image`] from FITS-ordered data (`shape` is
/// `[NAXIS1, NAXIS2, ...]` = `[width, height, channels?]`, planes stored
/// sequentially, rows fastest).
pub fn image_from_planar<T: Copy>(shape: &[usize], pixels: Vec<T>) -> (r: Result<Image<T>, Error>)
    requires
        shape@.len() >= 2,
        shape@[0] * shape@[1] <= usize::MAX,
    ensures
        match r {
            Ok(image) => {
                &&& pixels@.len() >= shape@[0] * shape@[1]
                &&& image@.wf()
                &&& image@ == planar_image(shape@[0] as nat, shape@[1] as nat, pixels@)
            },
            Err(e) => {
                &&& pixels@.len() < shape@[0] * shape@[1]
                &&& e is Fits
                &&& e.detail() == truncation_text(
                    (shape@[0] * shape@[1]) as nat,
                    pixels@.len(),
                )
            },
        },
{
    let width = shape[0];
    let height = shape[1];
    let plane: usize = width * height;
    if pixels.len() < plane {
        return Err(Error::Fits(truncation_message(plane, pixels.len())));
    }
    if pixels.len() / 3 >= plane {
        let red = run(&pixels, 0, plane);
        let green = run(&pixels, plane, plane);
        let blue = run(&pixels, 2 * plane, plane);
        Ok(Image::new_rgb(width, height, [red, green, blue]))
    } else {
        let gray = run(&pixels, 0, plane);
        Ok(Image::new_mono(width, height, gray))
    }
}

/// The value of a sample, `absent` where it has none.
pub open spec fn value_or<N>(sample: Option<N>, absent: N) -> N {
    match sample {
        Some(v) => v,
        None => absent,
    }
}

/// The signed integer samples of a FITS file: a sample without a value reads as
/// zero.
pub fn signed_samples(samples: &[Option<i32>]) -> (out: Vec<i32>)
    ensures
        out@ == samples@.map_values(|s: Option<i32>| value_or(s, 0)),
{
    let mut out: Vec<i32> = Vec::new();
    let mut i: usize = 0;
    while i < samples.len()
        invariant
            i <= samples@.len(),
            out@.len() == i,
            forall|k: int| 0 <= k < i ==> out@[k] == value_or(#[trigger] samples@[k], 0),
        decreases samples@.len() - i,
    {
        out.push(
            match samples[i] {
                Some(v) => v,
                None => 0,
            },
        );
        i += 1;
    }
    assert(out@ =~= samples@.map_values(|s: Option<i32>| value_or(s, 0)));
    out
}

/// The unsigned integer samples of a FITS file: a sample without a value reads as
/// zero.
pub fn unsigned_samples(samples: &[Option<u32>]) -> (out: Vec<u32>)
    ensures
        out@ == samples@.map_values(|s: Option<u32>| value_or(s, 0)),
{
    let mut out: Vec<u32> = Vec::new();
    let mut i: usize = 0;
    while i < samples.len()
        invariant
            i <= samples@.len(),
            out@.len() == i,
            forall|k: int| 0 <= k < i ==> out@[k] == value_or(#[trigger] samples@[k], 0),
        decreases samples@.len() - i,
    {
        out.push(
            match samples[i] {
                Some(v) => v,
                None => 0,
            },
        );
        i += 1;
    }
    assert(out@ =~= samples@.map_values(|s: Option<u32>| value_or(s, 0)));
    out
}

/// Data of this shape hold an image: at least two dimensions, none of them
/// empty.
pub open spec fn holds_image(shape: Seq<usize>) -> bool {
    shape.len() >= 2 && forall|i: int| 0 <= i < shape.len() ==> #[trigger] shape[i] != 0
}

/// What reading one header data unit of a FITS file gives: `None`, and the
/// search goes on, where its data hold no image; otherwise the image in them,
/// or the error that they are truncated.
pub fn image_of_hdu<T: Copy>(shape: &[usize], pixels: Vec<T>) -> (r: Option<
    Result<Image<T>, Error>,
>)
    requires
        shape@.len() >= 2 ==> shape@[0] * shape@[1] <= usize::MAX,
    ensures
        match r {
            None => !holds_image(shape@),
            Some(Ok(image)) => {
                &&& holds_image(shape@)
                &&& pixels@.len() >= shape@[0] * shape@[1]
                &&& image@.wf()
                &&& image@ == planar_image(shape@[0] as nat, shape@[1] as nat, pixels@)
            },
            Some(Err(e)) => {
                &&& holds_image(shape@)
                &&& pixels@.len() < shape@[0] * shape@[1]
                &&& e is Fits
                &&& e.detail() == truncation_text(
                    (shape@[0] * shape@[1]) as nat,
                    pixels@.len(),
                )
            },
        },
{
    if is_image_shape(shape) {
        Some(image_from_planar(shape, pixels))
    } else {
        None
    }
}

/// Whether data of this shape hold an image.
fn is_image_shape(shape: &[usize]) -> (r: bool)
    ensures
        r == holds_image(shape@),
{
    if shape.len() < 2 {
        return false;
    }
    let mut i: usize = 0;
    while i < shape.len()
        invariant
            i <= shape@.len(),
            forall|k: int| 0 <= k < i ==> #[trigger] shape@[k] != 0,
        decreases shape@.len() - i,
    {
        if shape[i] == 0 {
            return false;
        }
        i += 1;
    }
    true
}

/// The samples of an image in FITS order: the planes one after the other.
pub fn planar_samples<T: Copy>(image: &Image<T>) -> (out: Vec<T>)
    ensures
        out@ == all_samples(image@),
{
    join(image.channels())
}

/// The shape of an image in FITS order: width, height, and three channels for
/// color.
pub fn planar_shape<T>(image: &Image<T>) -> (shape: Vec<usize>)
    ensures
        shape@.map_values(|n: usize| n as int) == shape_of(image@),
{
    let mut shape: Vec<usize> = Vec::new();
    shape.push(image.width());
    shape.push(image.height());
    if image.is_color() {
        shape.push(3);
    }
    assert(shape@.map_values(|n: usize| n as int) =~= shape_of(image@));
    shape
}

// ---------------------------------------------------------------------------
// Displayable images
// ---------------------------------------------------------------------------

/// An image of the `image` crate.
#[verifier::external_type_specification]
#[verifier::external_body]
pub struct ExDynamicImage(image::DynamicImage);

/// The 8-bit RGB image with these dimensions and these bytes, pixel by pixel.
pub uninterp spec fn rgb8(width: u32, height: u32, bytes: Seq<u8>) -> DynamicImage;

/// The 8-bit grayscale image with these dimensions and these bytes, pixel by
/// pixel.
pub uninterp spec fn luma8(width: u32, height: u32, bytes: Seq<u8>) -> DynamicImage;

/// An 8-bit RGB image from its bytes.
///
/// Calls `from_raw` of the image crate's `RgbImage`. Trusted: on a buffer that
/// is large enough it returns an image, which depends on the arguments alone.
#[verifier::external_body]
fn rgb_image(width: u32, height: u32, bytes: Vec<u8>) -> (r: DynamicImage)
    requires
        3 * width <= usize::MAX,
        3 * (width * height) <= bytes@.len(),
    ensures
        r == rgb8(width, height, bytes@),
{
    DynamicImage::ImageRgb8(
        RgbImage::from_raw(width, height, bytes).expect("buffer sized to width * height * 3"),
    )
}

/// An 8-bit grayscale image from its bytes.
///
/// Calls `from_raw` of the image crate's `GrayImage`. Trusted: on a buffer that
/// is large enough it returns an image, which depends on the arguments alone.
#[verifier::external_body]
fn gray_image(width: u32, height: u32, bytes: Vec<u8>) -> (r: DynamicImage)
    requires
        width * height <= bytes@.len(),
    ensures
        r == luma8(width, height, bytes@),
{
    DynamicImage::ImageLuma8(
        GrayImage::from_raw(width, height, bytes).expect("buffer sized to width * height"),
    )
}

/// A sample as a brightness from 0 to 255.
pub open spec fn brightness<T>(v: T) -> Formula<T> {
    Formula::Given(v).times(whole(255)).clamp(whole(0), whole(255))
}

/// `bytes` holds the brightness of every channel of every pixel, pixel by
/// pixel.
pub open spec fn are_bytes<T, A: Arithmetic<T>>(
    ops: &A,
    image: Raster<T>,
    bytes: Seq<u8>,
) -> bool {
    &&& bytes.len() == image.samples()
    &&& forall|j: int|
        0 <= j < bytes.len() ==> bytes_of(
            ops,
            brightness(
                image.planes[j % image.planes.len() as int][j / image.planes.len() as int],
            ),
            #[trigger] bytes[j],
        )
}

/// `out` is the 8-bit image of stretched data: RGB for color, grayscale for
/// mono.
pub open spec fn is_dynamic_image<T, A: Arithmetic<T>>(
    ops: &A,
    image: Raster<T>,
    out: DynamicImage,
) -> bool {
    exists|bytes: Seq<u8>| #[trigger]
        are_bytes(ops, image, bytes) && out == if image.planes.len() == 3 {
            rgb8(image.width as u32, image.height as u32, bytes)
        } else {
            luma8(image.width as u32, image.height as u32, bytes)
        }
}

/// The 8-bit samples of an image, pixel by pixel.
pub fn to_bytes<T: Sample, A: Arithmetic<T>>(ops: &A, image: &Image<T>) -> (bytes: Vec<u8>)
    requires
        image@.wf(),
        image@.samples() <= usize::MAX,
    ensures
        are_bytes(ops, image@, bytes@),
{
    let channels = image.num_channels();
    let total: usize = channels * image.pixels_per_channel();
    let mut bytes: Vec<u8> = Vec::with_capacity(total);
    let mut j: usize = 0;
    while j < total
        invariant
            image@.wf(),
            channels == image@.planes.len(),
            total == image@.samples(),
            j <= total,
            bytes@.len() == j,
            forall|k: int|
                0 <= k < j ==> bytes_of(
                    ops,
                    brightness(image@.planes[k % channels as int][k / channels as int]),
                    #[trigger] bytes@[k],
                ),
        decreases total - j,
    {
        let c = j % channels;
        let i = j / channels;
        assert(i < image@.width * image@.height) by (nonlinear_arith)
            requires
                i == j / channels,
                j < channels * (image@.width * image@.height),
                channels > 0,
        ;
        let plane = image.channel(c);
        let level = Traced::given(ops, plane[i]).times(ops, Traced::whole(ops, 255));
        let shown = level.clamp(ops, Traced::whole(ops, 0), Traced::whole(ops, 255));
        bytes.push(shown.to_byte(ops));
        j += 1;
    }
    bytes
}

/// A dimension as the image crate counts it.
fn narrowed(n: usize) -> (r: u32)
    ensures
        r == n as u32,
        r <= n,
{
    assert((n as u32) <= n) by (bit_vector);
    n as u32
}

/// Convert stretched [0, 1] data to an 8-bit `image` crate image (grayscale
/// for mono input, RGB otherwise).
pub fn to_dynamic_image<T: Sample, A: Arithmetic<T>>(ops: &A, image: &Image<T>) -> (
    out: DynamicImage)
    requires
        image@.wf(),
        image@.samples() <= usize::MAX,
        image@.planes.len() == 3 ==> 3 * (image@.width as u32) <= usize::MAX,
    ensures
        is_dynamic_image(ops, image@, out),
{
    let bytes = to_bytes(ops, image);
    let w = narrowed(image.width());
    let h = narrowed(image.height());
    assert(w * h <= image@.width * image@.height) by (nonlinear_arith)
        requires
            0 <= w <= image@.width,
            0 <= h <= image@.height,
    ;
    let ghost n = image@.width * image@.height;
    if image.is_color() {
        assert(image@.planes.len() * n == 3 * n) by (nonlinear_arith)
            requires
                image@.planes.len() == 3,
        ;
        rgb_image(w, h, bytes)
    } else {
        assert(image@.planes.len() * n == n) by (nonlinear_arith)
            requires
                image@.planes.len() == 1,
        ;
        gray_image(w, h, bytes)
    }
}

/// A character with ASCII letters in lower case.
pub open spec fn lowered(c: char) -> char {
    if 'A' <= c && c <= 'Z' {
        (c as u32 + 32) as char
    } else {
        c
    }
}

/// A file extension names the JPEG format, in any case.
pub open spec fn names_jpeg(extension: Seq<char>) -> bool {
    let lower = extension.map_values(|c: char| lowered(c));
    lower == "jpg"@ || lower == "jpeg"@
}

/// Whether a character is a given lower case letter, in any case.
fn is_letter(c: char, upper: char, lower: char) -> (r: bool)
    requires
        'A' <= upper <= 'Z',
        lower as u32 == upper as u32 + 32,
    ensures
        r == (lowered(c) == lower),
{
    c == upper || c == lower
}

/// Whether a file extension names the JPEG format, in any case: JPEG output is
/// encoded at quality 95, every other format with its default encoding.
pub fn is_jpeg(extension: &str) -> (r: bool)
    ensures
        r == names_jpeg(extension@),
{
    proof {
        reveal_strlit("jpg");
        reveal_strlit("jpeg");
    }
    let ghost lower = extension@.map_values(|c: char| lowered(c));
    let n = extension.unicode_len();
    proof {
        assert(lower.len() == n);
        assert forall|k: int| 0 <= k < n implies #[trigger] lower[k] == lowered(extension@[k]) by {}
        assert("jpg"@ =~= seq!['j', 'p', 'g']);
        assert("jpeg"@ =~= seq!['j', 'p', 'e', 'g']);
    }
    if n == 3 {
        let r = is_letter(extension.get_char(0), 'J', 'j') && is_letter(
            extension.get_char(1),
            'P',
            'p',
        ) && is_letter(extension.get_char(2), 'G', 'g');
        proof {
            if r {
                assert(lower =~= "jpg"@);
            }
        }
        r
    } else if n == 4 {
        let r = is_letter(extension.get_char(0), 'J', 'j') && is_letter(
            extension.get_char(1),
            'P',
            'p',
        ) && is_letter(extension.get_char(2), 'E', 'e') && is_letter(
            extension.get_char(3),
            'G',
            'g',
        );
        proof {
            if r {
                assert(lower =~= "jpeg"@);
            }
        }
        r
    } else {
        false
    }
}

} // verus!
