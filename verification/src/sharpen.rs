//! Sharpening by convolution with a fixed 3x3 kernel.
//!
//! Border policy: the kernel is applied to interior pixels only. A pixel in
//! the first or last row or column has no full neighbourhood and is copied
//! from the source unchanged.

use vstd::prelude::*;
use crate::raster::{
    clamp_to_sample, lemma_painted_push, lemma_sample_index_in_range, painted, sample_count,
    sample_index, PixelFormat, RasterImage,
};

verus! {

/// The weight of the sharpening kernel in row `ky`, column `kx`.
pub open spec fn kernel_weight(ky: int, kx: int) -> int {
    if ky == 1 && kx == 1 {
        5
    } else if (ky == 1 && (kx == 0 || kx == 2)) || (kx == 1 && (ky == 0 || ky == 2)) {
        -1
    } else {
        0
    }
}

/// The sharpening kernel.
pub fn sharpen_kernel() -> (k: [[i32; 3]; 3])
    ensures
        forall|ky: int, kx: int|
            0 <= ky < 3 && 0 <= kx < 3 ==> (#[trigger] k@[ky]@[kx]) == kernel_weight(ky, kx),
{
    [[0, -1, 0], [-1, 5, -1], [0, -1, 0]]
}

/// The sum of the first `n` kernel entries, taken row by row, each times the
/// sample of channel `c` that it lies over when the kernel is centred on
/// `(x, y)`.
pub open spec fn kernel_sum(img: &RasterImage, x: int, y: int, c: int, n: nat) -> int
    decreases n,
{
    if n == 0 {
        0
    } else {
        let k = (n - 1) as int;
        kernel_sum(img, x, y, c, (n - 1) as nat) + kernel_weight(k / 3, k % 3) * (img.color_sample(
            x + k % 3 - 1,
            y + k / 3 - 1,
            c,
        ) as int)
    }
}

/// Whether the pixel has all eight neighbours inside the image.
pub open spec fn is_interior(img: &RasterImage, x: int, y: int) -> bool {
    1 <= x && x + 1 < img.width && 1 <= y && y + 1 < img.height
}

/// The sharpened sample: the clamped kernel sum in the interior, the source
/// sample on the border.
pub open spec fn sharpened_sample(img: &RasterImage, x: int, y: int, c: int) -> u8 {
    if is_interior(img, x, y) {
        clamp_to_sample(kernel_sum(img, x, y, c, 9))
    } else {
        img.color_sample(x, y, c)
    }
}

/// One more kernel entry adds its weight times the sample under it.
pub proof fn lemma_kernel_sum_step(img: &RasterImage, x: int, y: int, c: int, ky: int, kx: int)
    requires
        0 <= ky < 3,
        0 <= kx < 3,
    ensures
        kernel_sum(img, x, y, c, (3 * ky + kx + 1) as nat) == kernel_sum(
            img,
            x,
            y,
            c,
            (3 * ky + kx) as nat,
        ) + kernel_weight(ky, kx) * (img.color_sample(x + kx - 1, y + ky - 1, c) as int),
{
    let k = 3 * ky + kx;
    assert(k / 3 == ky && k % 3 == kx);
    assert(((k + 1) as nat - 1) as int == k);
    assert(((k + 1) as nat - 1) as nat == k as nat);
}

/// The kernel sum written out: five times the centre minus its four direct
/// neighbours.
pub proof fn lemma_kernel_sum_cross(img: &RasterImage, x: int, y: int, c: int)
    ensures
        kernel_sum(img, x, y, c, 9) == 5 * img.color_sample(x, y, c) - img.color_sample(x, y - 1, c)
            - img.color_sample(x - 1, y, c) - img.color_sample(x + 1, y, c) - img.color_sample(x, y + 1, c),
{
    lemma_kernel_sum_step(img, x, y, c, 0, 0);
    lemma_kernel_sum_step(img, x, y, c, 0, 1);
    lemma_kernel_sum_step(img, x, y, c, 0, 2);
    lemma_kernel_sum_step(img, x, y, c, 1, 0);
    lemma_kernel_sum_step(img, x, y, c, 1, 1);
    lemma_kernel_sum_step(img, x, y, c, 1, 2);
    lemma_kernel_sum_step(img, x, y, c, 2, 0);
    lemma_kernel_sum_step(img, x, y, c, 2, 1);
    lemma_kernel_sum_step(img, x, y, c, 2, 2);
}

fn clamp_sum(total: i32) -> (v: u8)
    ensures
        v == clamp_to_sample(total as int),
{
    if total < 0 {
        0
    } else if total > 255 {
        255
    } else {
        total as u8
    }
}

/// The kernel sum of one channel around an interior pixel.
fn convolve_at(image: &RasterImage, kernel: &[[i32; 3]; 3], x: u32, y: u32, c: usize) -> (total:
    i32)
    requires
        image.wf(),
        is_interior(image, x as int, y as int),
        c < 3,
        forall|ky: int, kx: int|
            0 <= ky < 3 && 0 <= kx < 3 ==> (#[trigger] kernel@[ky]@[kx]) == kernel_weight(ky, kx),
    ensures
        total == kernel_sum(image, x as int, y as int, c as int, 9),
{
    let mut total: i32 = 0;
    let mut ky: usize = 0;
    while ky < 3
        invariant
            ky <= 3,
            image.wf(),
            is_interior(image, x as int, y as int),
            c < 3,
            forall|ky: int, kx: int|
                0 <= ky < 3 && 0 <= kx < 3 ==> (#[trigger] kernel@[ky]@[kx]) == kernel_weight(
                    ky,
                    kx,
                ),
            total == kernel_sum(image, x as int, y as int, c as int, (3 * ky) as nat),
            -1275 * (3 * ky) <= total <= 1275 * (3 * ky),
        decreases 3 - ky,
    {
        let mut kx: usize = 0;
        while kx < 3
            invariant
                ky < 3,
                kx <= 3,
                image.wf(),
                    is_interior(image, x as int, y as int),
                c < 3,
                forall|ky: int, kx: int|
                    0 <= ky < 3 && 0 <= kx < 3 ==> (#[trigger] kernel@[ky]@[kx]) == kernel_weight(
                        ky,
                        kx,
                    ),
                total == kernel_sum(image, x as int, y as int, c as int, (3 * ky + kx) as nat),
                -1275 * (3 * ky + kx) <= total <= 1275 * (3 * ky + kx),
            decreases 3 - kx,
        {
            let px: u8 = image.color_at(x + kx as u32 - 1, y + ky as u32 - 1, c);
            let weight: i32 = kernel[ky][kx];
            assert(weight == kernel_weight(ky as int, kx as int));
            assert(-1275 <= px * weight <= 1275) by (nonlinear_arith)
                requires
                    0 <= px <= 255,
                    -1 <= weight <= 5,
            ;
            let term: i32 = px as i32 * weight;
            proof {
                let under = image.color_sample(x + kx - 1, y + ky - 1, c as int) as int;
                let w = kernel_weight(ky as int, kx as int);
                assert(px as int == under);
                assert(term as int == w * under) by (nonlinear_arith)
                    requires
                        term as int == (px as int) * (weight as int),
                        px as int == under,
                        weight as int == w,
                ;
                lemma_kernel_sum_step(image, x as int, y as int, c as int, ky as int, kx as int);
            }
            total = total + term;
            kx = kx + 1;
        }
        ky = ky + 1;
    }
    total
}

/// Sharpens the colours of an image. The result is an RGB image of the size
/// of the source; each interior sample is the clamped kernel sum, each
/// border sample is copied.
pub fn apply_convolution(image: &RasterImage) -> (out: RasterImage)
    requires
        image.wf(),
    ensures
        out.wf(),
        out.width == image.width,
        out.height == image.height,
        out.format == PixelFormat::Rgb8,
        forall|x: int, y: int, c: int|
            0 <= x < image.width && 0 <= y < image.height && 0 <= c < 3 ==> #[trigger] out.sample(
                x,
                y,
                c,
            ) == sharpened_sample(image, x, y, c),
{
    let width: u32 = image.width;
    let height: u32 = image.height;
    let kernel = sharpen_kernel();
    let ghost f = |x: int, y: int, c: int| sharpened_sample(image, x, y, c);
    let mut pixels: Vec<u8> = Vec::new();
    let mut y: u32 = 0;
    while y < height
        invariant
            y <= height,
            width == image.width,
            height == image.height,
            image.wf(),
            forall|ky: int, kx: int|
                0 <= ky < 3 && 0 <= kx < 3 ==> (#[trigger] kernel@[ky]@[kx]) == kernel_weight(
                    ky,
                    kx,
                ),
            f == |x: int, y: int, c: int| sharpened_sample(image, x, y, c),
            pixels@.len() == sample_index(width, 3, 0, y as int, 0),
            painted(pixels@, width, 3, f),
        decreases height - y,
    {
        let mut x: u32 = 0;
        while x < width
            invariant
                y < height,
                x <= width,
                width == image.width,
                height == image.height,
                image.wf(),
                    forall|ky: int, kx: int|
                    0 <= ky < 3 && 0 <= kx < 3 ==> (#[trigger] kernel@[ky]@[kx]) == kernel_weight(
                        ky,
                        kx,
                    ),
                f == |x: int, y: int, c: int| sharpened_sample(image, x, y, c),
                pixels@.len() == sample_index(width, 3, x as int, y as int, 0),
                painted(pixels@, width, 3, f),
            decreases width - x,
        {
            let inside: bool = 1 <= x && x < width - 1 && 1 <= y && y < height - 1;
            let mut c: usize = 0;
            while c < 3
                invariant
                    y < height,
                    x < width,
                    c <= 3,
                    width == image.width,
                    height == image.height,
                    image.wf(),
                            inside == is_interior(image, x as int, y as int),
                    forall|ky: int, kx: int|
                        0 <= ky < 3 && 0 <= kx < 3 ==> (#[trigger] kernel@[ky]@[kx])
                            == kernel_weight(ky, kx),
                    f == |x: int, y: int, c: int| sharpened_sample(image, x, y, c),
                    pixels@.len() == sample_index(width, 3, x as int, y as int, c as int),
                    painted(pixels@, width, 3, f),
                decreases 3 - c,
            {
                let v: u8 = if inside {
                    clamp_sum(convolve_at(image, &kernel, x, y, c))
                } else {
                    image.color_at(x, y, c)
                };
                proof {
                    lemma_painted_push(pixels@, v, width, 3, x as int, y as int, c as int, f);
                }
                pixels.push(v);
                c = c + 1;
            }
            x = x + 1;
        }
        assert(sample_index(width, 3, width as int, y as int, 0) == sample_index(
            width,
            3,
            0,
            y + 1,
            0,
        )) by (nonlinear_arith);
        y = y + 1;
    }
    assert(sample_index(width, 3, 0, height as int, 0) == sample_count(width, height, 3))
        by (nonlinear_arith);
    let out = RasterImage { width, height, format: PixelFormat::Rgb8, pixels };
    proof {
        assert forall|x: int, y: int, c: int|
            0 <= x < image.width && 0 <= y < image.height && 0 <= c < 3 implies #[trigger] out.sample(
            x,
            y,
            c,
        ) == sharpened_sample(image, x, y, c) by {
            lemma_sample_index_in_range(width, height, 3, x, y, c);
            assert(out.pixels@[sample_index(width, 3, x, y, c)] == f(x, y, c));
        }
    }
    out
}

/// Sharpening a flat image changes nothing: the kernel's weights add up to
/// one, so every sample of the result equals the one colour value of its
/// channel.
pub proof fn lemma_sharpen_uniform(img: &RasterImage, x: int, y: int, c: int)
    requires
        img.wf(),
        0 <= x < img.width,
        0 <= y < img.height,
        0 <= c < 3,
        forall|x2: int, y2: int|
            0 <= x2 < img.width && 0 <= y2 < img.height ==> #[trigger] img.color_sample(x2, y2, c)
                == img.color_sample(0, 0, c),
    ensures
        sharpened_sample(img, x, y, c) == img.color_sample(x, y, c),
{
    if is_interior(img, x, y) {
        lemma_kernel_sum_cross(img, x, y, c);
        assert(img.color_sample(x, y, c) == img.color_sample(0, 0, c));
        assert(img.color_sample(x, y - 1, c) == img.color_sample(0, 0, c));
        assert(img.color_sample(x - 1, y, c) == img.color_sample(0, 0, c));
        assert(img.color_sample(x + 1, y, c) == img.color_sample(0, 0, c));
        assert(img.color_sample(x, y + 1, c) == img.color_sample(0, 0, c));
    }
}

} // verus!
