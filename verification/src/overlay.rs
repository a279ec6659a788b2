//! Compositing one image onto another with a constant blend factor.

use vstd::prelude::*;
use crate::error::ErrorKind;
use crate::raster::{
    lemma_painted_push, lemma_sample_index_in_range, painted, sample_count, sample_index,
    PixelFormat, RasterImage,
};

verus! {

/// The weight of the overlay in a blend, as the fraction `num / den` between
/// zero (only the base shows) and one (only the overlay shows).
#[derive(Clone, Copy, Debug, PartialEq, Eq, Structural)]
pub struct BlendFactor {
    pub num: u32,
    pub den: u32,
}

impl BlendFactor {
    /// The fraction is defined and lies between zero and one.
    pub open spec fn wf(self) -> bool {
        0 < self.den && self.num <= self.den
    }

    /// The factor `num / den`, if that is a fraction between zero and one.
    pub fn new(num: u32, den: u32) -> (r: Result<BlendFactor, ErrorKind>)
        ensures
            0 < den && num <= den ==> r == Ok::<BlendFactor, ErrorKind>(BlendFactor { num, den }),
            !(0 < den && num <= den) ==> r == Err::<BlendFactor, ErrorKind>(
                ErrorKind::InvalidArgument,
            ),
    {
        if den == 0 || num > den {
            Err(ErrorKind::InvalidArgument)
        } else {
            Ok(BlendFactor { num, den })
        }
    }
}

/// The weighted mean of a base sample and an overlay sample, rounded down.
pub open spec fn blend_sample(base: u8, top: u8, alpha: BlendFactor) -> u8 {
    (((alpha.den - alpha.num) * (base as int) + alpha.num * (top as int)) / (
    alpha.den as int)) as u8
}

/// The weighted mean of two samples is a sample.
pub proof fn lemma_blend_in_range(base: u8, top: u8, alpha: BlendFactor)
    requires
        alpha.wf(),
    ensures
        0 <= ((alpha.den - alpha.num) * (base as int) + alpha.num * (top as int)) <= 255 * (
        alpha.den as int),
        0 <= ((alpha.den - alpha.num) * (base as int) + alpha.num * (top as int)) / (
        alpha.den as int) <= 255,
{
    let d = alpha.den as int;
    let n = alpha.num as int;
    let b = base as int;
    let t = top as int;
    assert(0 <= (d - n) * b + n * t <= 255 * d) by (nonlinear_arith)
        requires
            0 <= n <= d,
            0 <= b <= 255,
            0 <= t <= 255,
    ;
    let s = (d - n) * b + n * t;
    assert(0 <= s / d <= 255) by (nonlinear_arith)
        requires
            0 <= s <= 255 * d,
            0 < d,
    ;
}

/// With factor zero a blend is the base sample; with factor one it is the
/// overlay sample.
pub proof fn lemma_blend_endpoints(base: u8, top: u8, alpha: BlendFactor)
    requires
        alpha.wf(),
    ensures
        alpha.num == 0 ==> blend_sample(base, top, alpha) == base,
        alpha.num == alpha.den ==> blend_sample(base, top, alpha) == top,
{
    let d = alpha.den as int;
    assert(d * (base as int) / d == base as int) by (nonlinear_arith)
        requires
            0 < d,
    ;
    assert(d * (top as int) / d == top as int) by (nonlinear_arith)
        requires
            0 < d,
    ;
    if alpha.num == 0 {
        assert((d - 0) * (base as int) + 0 * (top as int) == d * (base as int));
    }
    if alpha.num == alpha.den {
        assert((d - d) * (base as int) + d * (top as int) == d * (top as int));
    }
}

fn blend_channel(base: u8, top: u8, alpha: BlendFactor) -> (v: u8)
    requires
        alpha.wf(),
    ensures
        v == blend_sample(base, top, alpha),
{
    proof {
        lemma_blend_in_range(base, top, alpha);
        assert(0 <= (alpha.den - alpha.num) * (base as int) <= 255 * (alpha.den as int))
            by (nonlinear_arith)
            requires
                0 <= alpha.num <= alpha.den,
                0 <= base <= 255,
        ;
        assert(0 <= alpha.num * (top as int) <= 255 * (alpha.den as int)) by (nonlinear_arith)
            requires
                0 <= alpha.num <= alpha.den,
                0 <= top <= 255,
        ;
    }
    let rest: u64 = (alpha.den - alpha.num) as u64;
    let total: u64 = rest * base as u64 + alpha.num as u64 * top as u64;
    (total / alpha.den as u64) as u8
}

/// Blends an overlay pixel over a base pixel. The colours are the weighted
/// means of the two; the result is opaque.
pub fn blend_pixels(base: [u8; 4], overlay: [u8; 4], alpha: BlendFactor) -> (out: [u8; 4])
    requires
        alpha.wf(),
    ensures
        forall|c: int|
            0 <= c < 3 ==> (#[trigger] out@[c]) == blend_sample(base@[c], overlay@[c], alpha),
        out@[3] == 255,
{
    [
        blend_channel(base[0], overlay[0], alpha),
        blend_channel(base[1], overlay[1], alpha),
        blend_channel(base[2], overlay[2], alpha),
        255,
    ]
}

/// Whether some pixel of the overlay, placed with its corner at `(x, y)`,
/// falls outside the base.
pub open spec fn exceeds(base: &RasterImage, top: &RasterImage, x: u32, y: u32) -> bool {
    top.width > 0 && top.height > 0 && (x + top.width > base.width || y + top.height
        > base.height)
}

/// Whether the overlay, placed at `(x, y)`, lies over the base pixel
/// `(bx, by)`.
pub open spec fn covers(top: &RasterImage, x: u32, y: u32, bx: int, by: int) -> bool {
    x <= bx < x + top.width && y <= by < y + top.height
}

/// Sample `c` of the pixel `(bx, by)` of the composite: under the overlay a
/// blend of the two colours with full opacity, elsewhere the base pixel.
pub open spec fn composited_sample(
    base: &RasterImage,
    top: &RasterImage,
    x: u32,
    y: u32,
    alpha: BlendFactor,
    bx: int,
    by: int,
    c: int,
) -> u8 {
    let under = base.color_sample(bx, by, c);
    if covers(top, x, y, bx, by) {
        if c == 3 {
            255
        } else {
            blend_sample(
                under,
                top.color_sample(bx - x, by - y, c),
                alpha,
            )
        }
    } else {
        under
    }
}

/// Composites `overlay` onto `base` with its corner at `(x, y)`. Fails with
/// `OutOfBounds`, producing nothing, exactly when a pixel of the overlay
/// would fall outside the base. Otherwise the result is an RGBA image of the
/// size of the base that holds the composite.
pub fn overlay_images(
    base: &RasterImage,
    overlay: &RasterImage,
    x: u32,
    y: u32,
    alpha: BlendFactor,
) -> (r: Result<RasterImage, ErrorKind>)
    requires
        base.wf(),
        overlay.wf(),
        alpha.wf(),
    ensures
        exceeds(base, overlay, x, y) ==> r == Err::<RasterImage, ErrorKind>(ErrorKind::OutOfBounds),
        !exceeds(base, overlay, x, y) ==> r.is_ok(),
        r.is_ok() ==> {
            let out = r.unwrap();
            &&& out.wf()
            &&& out.width == base.width
            &&& out.height == base.height
            &&& out.format == PixelFormat::Rgba8
            &&& forall|bx: int, by: int, c: int|
                0 <= bx < base.width && 0 <= by < base.height && 0 <= c < 4
                    ==> #[trigger] out.sample(bx, by, c) == composited_sample(
                    base,
                    overlay,
                    x,
                    y,
                    alpha,
                    bx,
                    by,
                    c,
                )
        },
{
    let width: u32 = base.width;
    let height: u32 = base.height;
    if overlay.width > 0 && overlay.height > 0 && (x as u64 + overlay.width as u64 > width as u64
        || y as u64 + overlay.height as u64 > height as u64) {
        return Err(ErrorKind::OutOfBounds);
    }
    let ghost f = |bx: int, by: int, c: int|
        composited_sample(base, overlay, x, y, alpha, bx, by, c);
    let mut pixels: Vec<u8> = Vec::new();
    let mut by: u32 = 0;
    while by < height
        invariant
            by <= height,
            width == base.width,
            height == base.height,
            base.wf(),
            overlay.wf(),
            alpha.wf(),
            !exceeds(base, overlay, x, y),
            f == |bx: int, by: int, c: int|
                composited_sample(base, overlay, x, y, alpha, bx, by, c),
            pixels@.len() == sample_index(width, 4, 0, by as int, 0),
            painted(pixels@, width, 4, f),
        decreases height - by,
    {
        let mut bx: u32 = 0;
        while bx < width
            invariant
                by < height,
                bx <= width,
                width == base.width,
                height == base.height,
                base.wf(),
                overlay.wf(),
                alpha.wf(),
                !exceeds(base, overlay, x, y),
                f == |bx: int, by: int, c: int|
                    composited_sample(base, overlay, x, y, alpha, bx, by, c),
                pixels@.len() == sample_index(width, 4, bx as int, by as int, 0),
                painted(pixels@, width, 4, f),
            decreases width - bx,
        {
            let q: usize = base.pixel_index(bx, by);
            let under: [u8; 4] = base.rgba_at(q);
            let covered: bool = x <= bx && bx - x < overlay.width && y <= by && by - y
                < overlay.height;
            assert(covered == covers(overlay, x, y, bx as int, by as int));
            let p: [u8; 4] = if covered {
                let q2: usize = overlay.pixel_index(bx - x, by - y);
                let over: [u8; 4] = overlay.rgba_at(q2);
                blend_pixels(under, over, alpha)
            } else {
                under
            };
            proof {
                assert(forall|c: int| 0 <= c < 4 ==> (#[trigger] p@[c]) == f(bx as int, by as int, c));
                lemma_painted_push(pixels@, p@[0], width, 4, bx as int, by as int, 0, f);
                lemma_painted_push(pixels@.push(p@[0]), p@[1], width, 4, bx as int, by as int, 1, f);
                lemma_painted_push(
                    pixels@.push(p@[0]).push(p@[1]),
                    p@[2],
                    width,
                    4,
                    bx as int,
                    by as int,
                    2,
                    f,
                );
                lemma_painted_push(
                    pixels@.push(p@[0]).push(p@[1]).push(p@[2]),
                    p@[3],
                    width,
                    4,
                    bx as int,
                    by as int,
                    3,
                    f,
                );
            }
            pixels.push(p[0]);
            pixels.push(p[1]);
            pixels.push(p[2]);
            pixels.push(p[3]);
            bx = bx + 1;
        }
        assert(sample_index(width, 4, width as int, by as int, 0) == sample_index(
            width,
            4,
            0,
            by + 1,
            0,
        )) by (nonlinear_arith);
        by = by + 1;
    }
    assert(sample_index(width, 4, 0, height as int, 0) == sample_count(width, height, 4))
        by (nonlinear_arith);
    let out = RasterImage { width, height, format: PixelFormat::Rgba8, pixels };
    proof {
        assert forall|bx: int, by: int, c: int|
            0 <= bx < base.width && 0 <= by < base.height && 0 <= c < 4 implies #[trigger] out.sample(
            bx,
            by,
            c,
        ) == composited_sample(base, overlay, x, y, alpha, bx, by, c) by {
            lemma_sample_index_in_range(width, height, 4, bx, by, c);
            assert(out.pixels@[sample_index(width, 4, bx, by, c)] == f(bx, by, c));
        }
    }
    Ok(out)
}

/// With factor zero the composite shows the colours of the base under the
/// overlay; with factor one it shows the colours of the overlay. Either way
/// the pixels under the overlay are opaque.
pub proof fn lemma_overlay_endpoints(
    base: &RasterImage,
    top: &RasterImage,
    x: u32,
    y: u32,
    alpha: BlendFactor,
    bx: int,
    by: int,
    c: int,
)
    requires
        alpha.wf(),
        covers(top, x, y, bx, by),
        0 <= c < 4,
    ensures
        c == 3 ==> composited_sample(base, top, x, y, alpha, bx, by, c) == 255,
        c < 3 && alpha.num == 0 ==> composited_sample(base, top, x, y, alpha, bx, by, c)
            == base.color_sample(bx, by, c),
        c < 3 && alpha.num == alpha.den ==> composited_sample(base, top, x, y, alpha, bx, by, c)
            == top.color_sample(bx - x, by - y, c),
{
    lemma_blend_endpoints(
        base.color_sample(bx, by, c),
        top.color_sample(bx - x, by - y, c),
        alpha,
    );
}

} // verus!
