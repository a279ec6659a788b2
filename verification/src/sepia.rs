//! The sepia tone: a fixed colour matrix applied to every pixel.
//!
//! The matrix is held in thousandths and applied in exact integer
//! arithmetic; a channel is rounded down and capped at 255. Alpha passes
//! through.

use vstd::prelude::*;
use crate::raster::{channel_at, sample_count, PixelFormat, RasterImage};

verus! {

/// One channel of the sepia tone: the weighted sum of red, green and blue
/// with weights in thousandths, rounded down and capped at 255.
pub open spec fn sepia_level(r: u8, g: u8, b: u8, wr: int, wg: int, wb: int) -> u8 {
    let v = (wr * (r as int) + wg * (g as int) + wb * (b as int)) / 1000;
    if v > 255 {
        255
    } else {
        v as u8
    }
}

/// Sample `c` of the sepia tone of the pixel `(r, g, b, a)`.
pub open spec fn sepia_sample(r: u8, g: u8, b: u8, a: u8, c: int) -> u8 {
    if c == 0 {
        sepia_level(r, g, b, 393, 769, 189)
    } else if c == 1 {
        sepia_level(r, g, b, 349, 686, 168)
    } else if c == 2 {
        sepia_level(r, g, b, 272, 534, 131)
    } else {
        a
    }
}

fn weighted_level(r: u8, g: u8, b: u8, wr: u32, wg: u32, wb: u32) -> (v: u8)
    requires
        wr < 1000,
        wg < 1000,
        wb < 1000,
    ensures
        v == sepia_level(r, g, b, wr as int, wg as int, wb as int),
{
    assert(wr * r <= 999 * 255 && wg * g <= 999 * 255 && wb * b <= 999 * 255) by (nonlinear_arith)
        requires
            wr <= 999,
            wg <= 999,
            wb <= 999,
            r <= 255,
            g <= 255,
            b <= 255,
    ;
    let total: u32 = wr * r as u32 + wg * g as u32 + wb * b as u32;
    let v: u32 = total / 1000;
    if v > 255 {
        255
    } else {
        v as u8
    }
}

/// The sepia tone of one RGBA pixel.
pub fn sepia_pixel(p: [u8; 4]) -> (out: [u8; 4])
    ensures
        forall|c: int|
            0 <= c < 4 ==> (#[trigger] out@[c]) == sepia_sample(p@[0], p@[1], p@[2], p@[3], c),
{
    [
        weighted_level(p[0], p[1], p[2], 393, 769, 189),
        weighted_level(p[0], p[1], p[2], 349, 686, 168),
        weighted_level(p[0], p[1], p[2], 272, 534, 131),
        p[3],
    ]
}

/// Trusted: `imageproc::map::map_colors` on an RGBA buffer, with
/// [`sepia_pixel`] as the function applied. The crate builds an image of the
/// same size and stores at each place the function's value for the source
/// pixel at that place.
#[verifier::external_body]
fn map_sepia(width: u32, height: u32, rgba: Vec<u8>) -> (out: Vec<u8>)
    requires
        rgba@.len() == sample_count(width, height, 4),
    ensures
        out@.len() == rgba@.len(),
        forall|q: int, c: int|
            0 <= q < (width as nat) * (height as nat) && 0 <= c < 4 ==> #[trigger] channel_at(
                out@,
                4,
                q,
                c,
            ) == sepia_sample(
                channel_at(rgba@, 4, q, 0),
                channel_at(rgba@, 4, q, 1),
                channel_at(rgba@, 4, q, 2),
                channel_at(rgba@, 4, q, 3),
                c,
            ),
{
    let img = image::RgbaImage::from_raw(width, height, rgba).unwrap();
    imageproc::map::map_colors(&img, |p| image::Rgba(sepia_pixel(p.0))).into_raw()
}

/// Tones an image sepia. The result is an RGBA image of the size of the
/// source; each pixel is the sepia tone of the source pixel, its alpha
/// unchanged.
pub fn apply_sepia(img: &RasterImage) -> (out: RasterImage)
    requires
        img.wf(),
    ensures
        out.wf(),
        out.width == img.width,
        out.height == img.height,
        out.format == PixelFormat::Rgba8,
        forall|q: int, c: int|
            0 <= q < img.pixel_total() && 0 <= c < 4 ==> #[trigger] channel_at(
                out.pixels@,
                4,
                q,
                c,
            ) == sepia_sample(
                img.rgba_sample(q, 0),
                img.rgba_sample(q, 1),
                img.rgba_sample(q, 2),
                img.rgba_sample(q, 3),
                c,
            ),
{
    let rgba: RasterImage = img.to_rgba8();
    let ghost source = rgba.pixels@;
    let pixels: Vec<u8> = map_sepia(img.width, img.height, rgba.pixels);
    proof {
        assert forall|q: int, c: int|
            0 <= q < img.pixel_total() && 0 <= c < 4 implies #[trigger] channel_at(
            pixels@,
            4,
            q,
            c,
        ) == sepia_sample(
            img.rgba_sample(q, 0),
            img.rgba_sample(q, 1),
            img.rgba_sample(q, 2),
            img.rgba_sample(q, 3),
            c,
        ) by {
            assert(channel_at(source, 4, q, 0) == img.rgba_sample(q, 0));
            assert(channel_at(source, 4, q, 1) == img.rgba_sample(q, 1));
            assert(channel_at(source, 4, q, 2) == img.rgba_sample(q, 2));
            assert(channel_at(source, 4, q, 3) == img.rgba_sample(q, 3));
        }
    }
    RasterImage { width: img.width, height: img.height, format: PixelFormat::Rgba8, pixels }
}

} // verus!
