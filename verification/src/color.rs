//! Colour adjustments: conversion between colour spaces, hue rotation and
//! brightness.

use vstd::prelude::*;
use vstd::string::StrSliceExecFns;
use palette::FromColor;
use crate::error::ErrorKind;
use crate::raster::{
    channel_at, clamp_to_sample, lemma_channel_index, sample_count, PixelFormat, RasterImage,
};

verus! {

/// A colour space that an image's samples can be read in.
#[derive(Clone, Copy, Debug, PartialEq, Eq, Structural)]
pub enum ColorSpace {
    Rgb,
    Hsv,
}

/// What `str::to_lowercase` returns for a text.
pub uninterp spec fn lowercase_of(text: Seq<char>) -> Seq<char>;

/// What a colour becomes when `palette` converts it from 8-bit sRGB to HSV
/// and back: red, green and blue.
pub uninterp spec fn hsv_round_trip(r: u8, g: u8, b: u8) -> Seq<u8>;

/// Trusted: `str::to_lowercase`. The result is named, not spelled out.
#[verifier::external_body]
fn lowercase(text: &str) -> (lower: String)
    ensures
        lower@ == lowercase_of(text@),
{
    text.to_lowercase()
}

/// Trusted: `palette`'s conversion of an 8-bit sRGB colour to its `Hsv` type
/// and back (`Srgb::into_format`, `Hsv::from_color`, `Srgb::from_color`,
/// `into_format` again, which rounds to the nearest sample). The result is
/// named, not spelled out; it depends on the colour alone.
#[verifier::external_body]
fn through_hsv(r: u8, g: u8, b: u8) -> (out: [u8; 3])
    ensures
        out@ == hsv_round_trip(r, g, b),
{
    let rgb: palette::Srgb = palette::Srgb::new(r, g, b).into_format();
    let hsv: palette::Hsv = palette::Hsv::from_color(rgb);
    let back: palette::Srgb = palette::Srgb::from_color(hsv);
    let out: palette::Srgb<u8> = back.into_format();
    [out.red, out.green, out.blue]
}

/// Trusted: `image::imageops::huerotate` on an RGBA buffer. The crate
/// returns an image of the same size and copies each pixel's alpha; the
/// colours it computes with the platform's sine and cosine, so nothing is
/// claimed of them.
#[verifier::external_body]
fn huerotate_rgba(width: u32, height: u32, rgba: Vec<u8>, degrees: i32) -> (out: Vec<u8>)
    requires
        rgba@.len() == sample_count(width, height, 4),
    ensures
        out@.len() == rgba@.len(),
        forall|q: int|
            0 <= q < (width as nat) * (height as nat) ==> #[trigger] channel_at(out@, 4, q, 3)
                == channel_at(rgba@, 4, q, 3),
{
    let img = image::RgbaImage::from_raw(width, height, rgba).unwrap();
    image::imageops::huerotate(&img, degrees).into_raw()
}

impl ColorSpace {
    /// The colour space with the given lower-case name.
    pub open spec fn named(lower: Seq<char>) -> Option<ColorSpace> {
        if lower == seq!['r', 'g', 'b'] {
            Some(ColorSpace::Rgb)
        } else if lower == seq!['h', 's', 'v'] {
            Some(ColorSpace::Hsv)
        } else {
            None
        }
    }

    /// The colour space with the given name, which must be in lower case.
    /// Any other text is refused with `InvalidArgument`.
    pub fn from_lowercase(lower: &str) -> (r: Result<ColorSpace, ErrorKind>)
        ensures
            r == match Self::named(lower@) {
                Some(space) => Ok::<ColorSpace, ErrorKind>(space),
                None => Err::<ColorSpace, ErrorKind>(ErrorKind::InvalidArgument),
            },
    {
        if lower.unicode_len() != 3 {
            return Err(ErrorKind::InvalidArgument);
        }
        let a: char = lower.get_char(0);
        let b: char = lower.get_char(1);
        let c: char = lower.get_char(2);
        if a == 'r' && b == 'g' && c == 'b' {
            assert(lower@ =~= seq!['r', 'g', 'b']);
            Ok(ColorSpace::Rgb)
        } else if a == 'h' && b == 's' && c == 'v' {
            assert(lower@ =~= seq!['h', 's', 'v']);
            Ok(ColorSpace::Hsv)
        } else {
            Err(ErrorKind::InvalidArgument)
        }
    }

    /// The colour space with the given name, in any mix of upper and lower
    /// case. Any other text is refused with `InvalidArgument`.
    pub fn from_str(s: &str) -> (r: Result<ColorSpace, ErrorKind>)
        ensures
            r == match Self::named(lowercase_of(s@)) {
                Some(space) => Ok::<ColorSpace, ErrorKind>(space),
                None => Err::<ColorSpace, ErrorKind>(ErrorKind::InvalidArgument),
            },
    {
        let lower: String = lowercase(s);
        Self::from_lowercase(lower.as_str())
    }
}

/// The colour `(r, g, b)` read in the `input` space and written in the
/// `output` space. Samples are always stored as red, green and blue, so
/// each side that asks for HSV takes the colour to HSV and back once.
pub open spec fn converted_color(r: u8, g: u8, b: u8, input: ColorSpace, output: ColorSpace) -> Seq<
    u8,
> {
    let first = if input == ColorSpace::Hsv {
        hsv_round_trip(r, g, b)
    } else {
        seq![r, g, b]
    };
    if output == ColorSpace::Hsv {
        hsv_round_trip(first[0], first[1], first[2])
    } else {
        first
    }
}

/// Converts one colour between colour spaces.
pub fn convert_color(rgb: [u8; 3], input: ColorSpace, output: ColorSpace) -> (out: [u8; 3])
    ensures
        out@ == converted_color(rgb@[0], rgb@[1], rgb@[2], input, output),
{
    let first: [u8; 3] = match input {
        ColorSpace::Hsv => through_hsv(rgb[0], rgb[1], rgb[2]),
        ColorSpace::Rgb => rgb,
    };
    assert(rgb@ =~= seq![rgb@[0], rgb@[1], rgb@[2]]);
    match output {
        ColorSpace::Hsv => through_hsv(first[0], first[1], first[2]),
        ColorSpace::Rgb => first,
    }
}

/// Converts an image between colour spaces. The result is an RGB image of
/// the size of the source; each pixel is the converted colour of the source
/// pixel. Converting from RGB to RGB changes nothing.
pub fn convert_image_color_space(image: &RasterImage, input: ColorSpace, output: ColorSpace) -> (out:
    RasterImage)
    requires
        image.wf(),
    ensures
        out.wf(),
        out.width == image.width,
        out.height == image.height,
        out.format == PixelFormat::Rgb8,
        forall|q: int, c: int|
            0 <= q < image.pixel_total() && 0 <= c < 3 ==> #[trigger] channel_at(
                out.pixels@,
                3,
                q,
                c,
            ) == converted_color(
                image.rgba_sample(q, 0),
                image.rgba_sample(q, 1),
                image.rgba_sample(q, 2),
                input,
                output,
            )[c],
{
    let total: usize = image.pixel_count();
    let mut pixels: Vec<u8> = Vec::new();
    let mut q: usize = 0;
    while q < total
        invariant
            q <= total,
            image.wf(),
            total == image.pixel_total(),
            pixels@.len() == q * 3,
            forall|q2: int, c: int|
                0 <= q2 < q && 0 <= c < 3 ==> #[trigger] channel_at(pixels@, 3, q2, c)
                    == converted_color(
                    image.rgba_sample(q2, 0),
                    image.rgba_sample(q2, 1),
                    image.rgba_sample(q2, 2),
                    input,
                    output,
                )[c],
        decreases total - q,
    {
        let p: [u8; 4] = image.rgba_at(q);
        let v: [u8; 3] = convert_color([p[0], p[1], p[2]], input, output);
        let ghost before = pixels@;
        pixels.push(v[0]);
        pixels.push(v[1]);
        pixels.push(v[2]);
        proof {
            assert forall|q2: int, c: int| 0 <= q2 < q + 1 && 0 <= c < 3 implies #[trigger] channel_at(
                pixels@,
                3,
                q2,
                c,
            ) == converted_color(
                image.rgba_sample(q2, 0),
                image.rgba_sample(q2, 1),
                image.rgba_sample(q2, 2),
                input,
                output,
            )[c] by {
                if q2 < q {
                    lemma_channel_index(3, q as int, q2, c);
                    assert(channel_at(pixels@, 3, q2, c) == channel_at(before, 3, q2, c));
                } else {
                    assert(p@[0] == image.rgba_sample(q as int, 0));
                    assert(p@[1] == image.rgba_sample(q as int, 1));
                    assert(p@[2] == image.rgba_sample(q as int, 2));
                    assert(channel_at(pixels@, 3, q2, c) == v@[c]);
                }
            }
        }
        q = q + 1;
    }
    RasterImage { width: image.width, height: image.height, format: PixelFormat::Rgb8, pixels }
}

/// Converts an image between two colour spaces given by name. A name that
/// is neither "rgb" nor "hsv", in any mix of upper and lower case, is
/// refused with `InvalidArgument` before any pixel is touched.
pub fn convert_color_space(image: &RasterImage, input_space: &str, output_space: &str) -> (r: Result<
    RasterImage,
    ErrorKind,
>)
    requires
        image.wf(),
    ensures
        ColorSpace::named(lowercase_of(input_space@)) is None || ColorSpace::named(
            lowercase_of(output_space@),
        ) is None ==> r == Err::<RasterImage, ErrorKind>(ErrorKind::InvalidArgument),
        ColorSpace::named(lowercase_of(input_space@)) is Some && ColorSpace::named(
            lowercase_of(output_space@),
        ) is Some ==> r is Ok && {
            let out = r.unwrap();
            let input = ColorSpace::named(lowercase_of(input_space@)).unwrap();
            let output = ColorSpace::named(lowercase_of(output_space@)).unwrap();
            &&& out.wf()
            &&& out.width == image.width
            &&& out.height == image.height
            &&& out.format == PixelFormat::Rgb8
            &&& forall|q: int, c: int|
                0 <= q < image.pixel_total() && 0 <= c < 3 ==> #[trigger] channel_at(
                    out.pixels@,
                    3,
                    q,
                    c,
                ) == converted_color(
                    image.rgba_sample(q, 0),
                    image.rgba_sample(q, 1),
                    image.rgba_sample(q, 2),
                    input,
                    output,
                )[c]
        },
{
    let input: ColorSpace = match ColorSpace::from_str(input_space) {
        Ok(space) => space,
        Err(_) => {
            return Err(ErrorKind::InvalidArgument);
        },
    };
    let output: ColorSpace = match ColorSpace::from_str(output_space) {
        Ok(space) => space,
        Err(_) => {
            return Err(ErrorKind::InvalidArgument);
        },
    };
    Ok(convert_image_color_space(image, input, output))
}

/// Rotates the hue of every pixel by `degrees`. The result is an RGBA image
/// of the size of the source with every pixel's alpha unchanged.
pub fn adjust_hue(img: &RasterImage, degrees: i32) -> (out: RasterImage)
    requires
        img.wf(),
    ensures
        out.wf(),
        out.width == img.width,
        out.height == img.height,
        out.format == PixelFormat::Rgba8,
        forall|q: int|
            0 <= q < img.pixel_total() ==> #[trigger] channel_at(out.pixels@, 4, q, 3)
                == img.rgba_sample(q, 3),
{
    let rgba: RasterImage = img.to_rgba8();
    let ghost source = rgba.pixels@;
    let pixels: Vec<u8> = huerotate_rgba(img.width, img.height, rgba.pixels, degrees);
    proof {
        assert forall|q: int| 0 <= q < img.pixel_total() implies #[trigger] channel_at(
            pixels@,
            4,
            q,
            3,
        ) == img.rgba_sample(q, 3) by {
            assert(channel_at(source, 4, q, 3) == img.rgba_sample(q, 3));
        }
    }
    RasterImage { width: img.width, height: img.height, format: PixelFormat::Rgba8, pixels }
}

/// Sample `c` of a pixel made brighter by `value`: `value` is added to each
/// colour, which stays within the range of a sample; alpha is kept.
pub open spec fn brightened_sample(v: u8, value: i32, c: int) -> u8 {
    if c == 3 {
        v
    } else {
        clamp_to_sample(v + value)
    }
}

fn brighten_channel(v: u8, value: i32) -> (out: u8)
    ensures
        out == clamp_to_sample(v + value),
{
    let sum: i64 = v as i64 + value as i64;
    if sum < 0 {
        0
    } else if sum > 255 {
        255
    } else {
        sum as u8
    }
}

/// Makes an image brighter by adding `value` to every colour sample, or
/// darker where `value` is negative. The result is an RGBA image of the
/// size of the source.
pub fn adjust_brightness(img: &RasterImage, value: i32) -> (out: RasterImage)
    requires
        img.wf(),
    ensures
        out.wf(),
        out.width == img.width,
        out.height == img.height,
        out.format == PixelFormat::Rgba8,
        forall|q: int, c: int|
            0 <= q < img.pixel_total() && 0 <= c < 4 ==> #[trigger] channel_at(
                out.pixels@,
                4,
                q,
                c,
            ) == brightened_sample(img.rgba_sample(q, c), value, c),
{
    let total: usize = img.pixel_count();
    let mut pixels: Vec<u8> = Vec::new();
    let mut q: usize = 0;
    while q < total
        invariant
            q <= total,
            img.wf(),
            total == img.pixel_total(),
            pixels@.len() == q * 4,
            forall|q2: int, c: int|
                0 <= q2 < q && 0 <= c < 4 ==> #[trigger] channel_at(pixels@, 4, q2, c)
                    == brightened_sample(img.rgba_sample(q2, c), value, c),
        decreases total - q,
    {
        let p: [u8; 4] = img.rgba_at(q);
        let ghost before = pixels@;
        pixels.push(brighten_channel(p[0], value));
        pixels.push(brighten_channel(p[1], value));
        pixels.push(brighten_channel(p[2], value));
        pixels.push(p[3]);
        proof {
            assert forall|q2: int, c: int| 0 <= q2 < q + 1 && 0 <= c < 4 implies #[trigger] channel_at(
                pixels@,
                4,
                q2,
                c,
            ) == brightened_sample(img.rgba_sample(q2, c), value, c) by {
                if q2 < q {
                    lemma_channel_index(4, q as int, q2, c);
                    assert(channel_at(pixels@, 4, q2, c) == channel_at(before, 4, q2, c));
                } else {
                    assert(p@[c] == img.rgba_sample(q as int, c));
                }
            }
        }
        q = q + 1;
    }
    RasterImage { width: img.width, height: img.height, format: PixelFormat::Rgba8, pixels }
}

} // verus!
