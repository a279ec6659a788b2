//! Edge detection: the Sobel gradient magnitude of the luminance, stretched
//! so that the strongest edge of the image becomes white.

use vstd::prelude::*;
use crate::raster::{channel_at, sample_count, PixelFormat, RasterImage};

verus! {

/// The luminance of a colour: the weighted mean of red, green and blue in
/// ten-thousandths, rounded down.
pub open spec fn luma_value(r: u8, g: u8, b: u8) -> u8 {
    ((2126 * (r as int) + 7152 * (g as int) + 722 * (b as int)) / 10000) as u8
}

/// The luminance of every pixel of an image, in row-major order.
pub open spec fn luma_plane(img: &RasterImage) -> Seq<u8> {
    Seq::new(
        img.pixel_total(),
        |q: int| luma_value(img.rgba_sample(q, 0), img.rgba_sample(q, 1), img.rgba_sample(q, 2)),
    )
}

/// What `imageproc::gradients::sobel_gradients` returns for a grey image of
/// the given size and samples: one magnitude per pixel, in row-major order.
pub uninterp spec fn sobel_magnitudes(width: u32, height: u32, luma: Seq<u8>) -> Seq<u16>;

/// Whether all samples are the same.
pub open spec fn is_flat(samples: Seq<u8>) -> bool {
    forall|i: int, j: int| 0 <= i < samples.len() && 0 <= j < samples.len() ==> samples[i] == samples[j]
}

/// Trusted: `image::DynamicImage::to_luma8` on an RGBA buffer. The crate
/// computes each grey sample from red, green and blue alone as
/// `(2126 r + 7152 g + 722 b) / 10000` in integers and ignores alpha; the
/// result has one sample per pixel, in the order of the source.
#[verifier::external_body]
fn luma_of_rgba(width: u32, height: u32, rgba: Vec<u8>) -> (luma: Vec<u8>)
    requires
        rgba@.len() == sample_count(width, height, 4),
    ensures
        luma@.len() == (width as nat) * (height as nat),
        forall|q: int|
            0 <= q < luma@.len() ==> #[trigger] luma@[q] == luma_value(
                channel_at(rgba@, 4, q, 0),
                channel_at(rgba@, 4, q, 1),
                channel_at(rgba@, 4, q, 2),
            ),
{
    let img = image::RgbaImage::from_raw(width, height, rgba).unwrap();
    image::DynamicImage::ImageRgba8(img).to_luma8().into_raw()
}

/// Trusted: `imageproc::gradients::sobel_gradients` on a grey buffer. The
/// result is named, not spelled out. Two facts about it are taken from the
/// crate's source: it has one magnitude per pixel, and it is zero everywhere
/// on a flat image, because the weights of both Sobel kernels add up to zero
/// and the image is continued past its border by its nearest pixel. The
/// crate allocates buffers of two bytes per pixel, which must fit.
#[verifier::external_body]
fn sobel_of_luma(width: u32, height: u32, luma: Vec<u8>) -> (mags: Vec<u16>)
    requires
        luma@.len() == (width as nat) * (height as nat),
        2 * luma@.len() <= isize::MAX,
    ensures
        mags@ == sobel_magnitudes(width, height, luma@),
        mags@.len() == luma@.len(),
        is_flat(luma@) ==> forall|i: int| 0 <= i < mags@.len() ==> mags@[i] == 0,
{
    let img = image::GrayImage::from_raw(width, height, luma).unwrap();
    imageproc::gradients::sobel_gradients(&img).into_raw()
}

/// The image in grey: one luminance sample per pixel.
pub fn convert_to_grayscale(img: &RasterImage) -> (out: RasterImage)
    requires
        img.wf(),
    ensures
        out.wf(),
        out.width == img.width,
        out.height == img.height,
        out.format == PixelFormat::Luma8,
        out.pixels@ == luma_plane(img),
{
    let rgba: RasterImage = img.to_rgba8();
    let pixels: Vec<u8> = luma_of_rgba(img.width, img.height, rgba.pixels);
    assert(pixels@ =~= luma_plane(img));
    assert(sample_count(img.width, img.height, 1) == img.pixel_total()) by (nonlinear_arith);
    RasterImage { width: img.width, height: img.height, format: PixelFormat::Luma8, pixels }
}

/// An image whose pixels all have one colour has one luminance.
pub proof fn lemma_uniform_has_flat_luma(img: &RasterImage)
    requires
        forall|q: int, c: int|
            0 <= q < img.pixel_total() && 0 <= c < 3 ==> #[trigger] img.rgba_sample(q, c)
                == img.rgba_sample(0, c),
    ensures
        is_flat(luma_plane(img)),
{
    assert forall|i: int, j: int|
        0 <= i < luma_plane(img).len() && 0 <= j < luma_plane(img).len() implies luma_plane(
        img,
    )[i] == luma_plane(img)[j] by {
        assert(img.rgba_sample(i, 0) == img.rgba_sample(0, 0));
        assert(img.rgba_sample(i, 1) == img.rgba_sample(0, 1));
        assert(img.rgba_sample(i, 2) == img.rgba_sample(0, 2));
        assert(img.rgba_sample(j, 0) == img.rgba_sample(0, 0));
        assert(img.rgba_sample(j, 1) == img.rgba_sample(0, 1));
        assert(img.rgba_sample(j, 2) == img.rgba_sample(0, 2));
    }
}

/// The largest magnitude of a field, zero for an empty one.
pub open spec fn peak(mags: Seq<u16>) -> int
    decreases mags.len(),
{
    if mags.len() == 0 {
        0
    } else {
        let rest = peak(mags.drop_last());
        if mags.last() > rest {
            mags.last() as int
        } else {
            rest
        }
    }
}

/// A magnitude on the scale on which `max` is white. On a field without any
/// edge, where `max` is zero, everything is black.
pub open spec fn scaled_magnitude(m: int, max: int) -> int {
    if max > 0 {
        m * 255 / max
    } else {
        0
    }
}

/// The peak is an upper bound of the field, and one of its magnitudes unless
/// the field is empty.
pub proof fn lemma_peak_is_max(mags: Seq<u16>)
    ensures
        0 <= peak(mags) <= u16::MAX,
        forall|i: int| 0 <= i < mags.len() ==> (#[trigger] mags[i]) <= peak(mags),
        mags.len() > 0 ==> exists|i: int| 0 <= i < mags.len() && mags[i] == peak(mags),
    decreases mags.len(),
{
    if mags.len() > 0 {
        let front = mags.drop_last();
        lemma_peak_is_max(front);
        assert forall|i: int| 0 <= i < mags.len() implies (#[trigger] mags[i]) <= peak(mags) by {
            if i < front.len() {
                assert(mags[i] == front[i]);
            }
        }
        if mags.last() > peak(front) {
            assert(mags[mags.len() - 1] == peak(mags));
        } else if front.len() > 0 {
            let i = choose|i: int| 0 <= i < front.len() && front[i] == peak(front);
            assert(mags[i] == peak(mags));
        } else {
            assert(mags[mags.len() - 1] == peak(mags));
        }
    }
}

/// A scaled magnitude is a sample, and the peak itself becomes white.
pub proof fn lemma_scaled_range(m: int, max: int)
    requires
        0 <= m <= max,
    ensures
        0 <= scaled_magnitude(m, max) <= 255,
        m == max && max > 0 ==> scaled_magnitude(m, max) == 255,
{
    if max > 0 {
        assert(0 <= m * 255 / max <= 255) by (nonlinear_arith)
            requires
                0 <= m <= max,
                max > 0,
        ;
        assert(max * 255 / max == 255) by (nonlinear_arith)
            requires
                max > 0,
        ;
    }
}

/// The largest magnitude of a field.
pub fn max_gradient(mags: &Vec<u16>) -> (max: u16)
    ensures
        max == peak(mags@),
{
    let mut max: u16 = 0;
    let mut i: usize = 0;
    while i < mags.len()
        invariant
            i <= mags@.len(),
            max == peak(mags@.take(i as int)),
        decreases mags@.len() - i,
    {
        assert(mags@.take(i + 1).drop_last() =~= mags@.take(i as int));
        if mags[i] > max {
            max = mags[i];
        }
        i = i + 1;
    }
    assert(mags@.take(i as int) =~= mags@);
    max
}

/// Stretches a field of magnitudes to samples: each magnitude times 255
/// over the peak, rounded down; all zero where the peak is zero. Every
/// pixel that holds the peak comes out white.
pub fn scale_gradients(mags: &Vec<u16>) -> (out: Vec<u8>)
    ensures
        out@.len() == mags@.len(),
        forall|i: int|
            0 <= i < mags@.len() ==> (#[trigger] out@[i]) == scaled_magnitude(
                mags@[i] as int,
                peak(mags@),
            ),
        forall|i: int|
            0 <= i < mags@.len() && mags@[i] == peak(mags@) && peak(mags@) > 0 ==> (
            #[trigger] out@[i]) == 255,
{
    let max: u16 = max_gradient(mags);
    let mut out: Vec<u8> = Vec::new();
    let mut i: usize = 0;
    proof {
        lemma_peak_is_max(mags@);
    }
    while i < mags.len()
        invariant
            i <= mags@.len(),
            max == peak(mags@),
            out@.len() == i,
            forall|k: int| 0 <= k < mags@.len() ==> (#[trigger] mags@[k]) <= max,
            forall|k: int|
                0 <= k < i ==> (#[trigger] out@[k]) == scaled_magnitude(mags@[k] as int, max as int),
        decreases mags@.len() - i,
    {
        let m: u16 = mags[i];
        proof {
            lemma_scaled_range(m as int, max as int);
        }
        let v: u8 = if max > 0 {
            (m as u32 * 255 / max as u32) as u8
        } else {
            0
        };
        out.push(v);
        i = i + 1;
    }
    proof {
        assert forall|i: int|
            0 <= i < mags@.len() && mags@[i] == peak(mags@) && peak(mags@) > 0 implies (
        #[trigger] out@[i]) == 255 by {
            lemma_scaled_range(mags@[i] as int, max as int);
        }
    }
    out
}

/// The edge image: the luminance of `img`, its Sobel gradient magnitudes,
/// and those stretched to the full range of a sample.
pub open spec fn edge_samples(img: &RasterImage) -> Seq<u8> {
    let mags = sobel_magnitudes(img.width, img.height, luma_plane(img));
    Seq::new(mags.len(), |i: int| scaled_magnitude(mags[i] as int, peak(mags)) as u8)
}

/// Detects edges. The result is a grey image of the size of the source. An
/// image of one colour has no edges and comes out black; in any other
/// image the pixels of the strongest gradient come out white.
pub fn apply_edge_detection(img: &RasterImage) -> (out: RasterImage)
    requires
        img.wf(),
        2 * img.pixel_total() <= isize::MAX,
    ensures
        out.wf(),
        out.width == img.width,
        out.height == img.height,
        out.format == PixelFormat::Luma8,
        out.pixels@ == edge_samples(img),
        is_flat(luma_plane(img)) ==> forall|i: int|
            0 <= i < out.pixels@.len() ==> out.pixels@[i] == 0,
        forall|i: int|
            #![trigger out.pixels@[i]]
            0 <= i < out.pixels@.len() && peak(
                sobel_magnitudes(img.width, img.height, luma_plane(img)),
            ) > 0 && sobel_magnitudes(img.width, img.height, luma_plane(img))[i] == peak(
                sobel_magnitudes(img.width, img.height, luma_plane(img)),
            ) ==> out.pixels@[i] == 255,
{
    let grey: RasterImage = convert_to_grayscale(img);
    let luma: Vec<u8> = grey.pixels;
    let mags: Vec<u16> = sobel_of_luma(img.width, img.height, luma);
    let pixels: Vec<u8> = scale_gradients(&mags);
    proof {
        lemma_peak_is_max(mags@);
        assert forall|i: int| 0 <= i < pixels@.len() implies pixels@[i] == edge_samples(img)[i] by {
            lemma_scaled_range(mags@[i] as int, peak(mags@));
        }
        assert(pixels@ =~= edge_samples(img));
        assert(sample_count(img.width, img.height, 1) == img.pixel_total()) by (nonlinear_arith);
    }
    RasterImage { width: img.width, height: img.height, format: PixelFormat::Luma8, pixels }
}

} // verus!
