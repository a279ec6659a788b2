//! The in-memory image: dimensions, a pixel format and the samples in
//! row-major order.

use vstd::prelude::*;
use crate::error::ErrorKind;

verus! {

/// How many samples a pixel has and what they mean.
#[derive(Clone, Copy, Debug, PartialEq, Eq, Structural)]
pub enum PixelFormat {
    /// One luminance sample.
    Luma8,
    /// Red, green, blue.
    Rgb8,
    /// Red, green, blue, alpha.
    Rgba8,
}

impl PixelFormat {
    /// The number of samples per pixel.
    pub open spec fn channel_count(self) -> nat {
        match self {
            PixelFormat::Luma8 => 1,
            PixelFormat::Rgb8 => 3,
            PixelFormat::Rgba8 => 4,
        }
    }

    /// The number of samples per pixel.
    pub fn channels(self) -> (n: usize)
        ensures
            n == self.channel_count(),
    {
        match self {
            PixelFormat::Luma8 => 1,
            PixelFormat::Rgb8 => 3,
            PixelFormat::Rgba8 => 4,
        }
    }
}

/// The number of samples of an image of the given size.
pub open spec fn sample_count(width: u32, height: u32, channels: nat) -> nat {
    (width as nat) * (height as nat) * channels
}

/// Where sample `c` of the pixel in column `x` of row `y` lies.
pub open spec fn sample_index(width: u32, channels: nat, x: int, y: int, c: int) -> int {
    (y * (width as int) + x) * (channels as int) + c
}

/// Every sample of an image has its place inside the buffer.
pub proof fn lemma_sample_index_in_range(
    width: u32,
    height: u32,
    channels: nat,
    x: int,
    y: int,
    c: int,
)
    requires
        0 <= x < width,
        0 <= y < height,
        0 <= c < channels,
    ensures
        0 <= y * (width as int) + x < (width as int) * (height as int),
        0 <= sample_index(width, channels, x, y, c) < sample_count(width, height, channels),
{
    let w = width as int;
    let h = height as int;
    let n = channels as int;
    assert(y * w + x < w * h) by (nonlinear_arith)
        requires
            0 <= x < w,
            0 <= y < h,
    ;
    assert(0 <= y * w + x) by (nonlinear_arith)
        requires
            0 <= x,
            0 <= y,
            0 <= w,
    ;
    let p = y * w + x;
    assert(0 <= p * n + c < w * h * n) by (nonlinear_arith)
        requires
            0 <= p < w * h,
            0 <= c < n,
    ;
}

/// Two places `a * n + b` with `b < n` are equal only if their parts are.
pub proof fn lemma_mixed_radix_unique(a1: int, b1: int, a2: int, b2: int, n: int)
    requires
        0 <= b1 < n,
        0 <= b2 < n,
        a1 * n + b1 == a2 * n + b2,
    ensures
        a1 == a2,
        b1 == b2,
{
    if a1 < a2 {
        assert((a1 + 1) * n <= a2 * n) by (nonlinear_arith)
            requires
                a1 + 1 <= a2,
                0 <= n,
        ;
        assert((a1 + 1) * n == a1 * n + n) by (nonlinear_arith);
    } else if a2 < a1 {
        assert((a2 + 1) * n <= a1 * n) by (nonlinear_arith)
            requires
                a2 + 1 <= a1,
                0 <= n,
        ;
        assert((a2 + 1) * n == a2 * n + n) by (nonlinear_arith);
    }
}

/// Different samples lie at different places of the buffer.
pub proof fn lemma_sample_index_injective(
    width: u32,
    channels: nat,
    x1: int,
    y1: int,
    c1: int,
    x2: int,
    y2: int,
    c2: int,
)
    requires
        0 <= x1 < width,
        0 <= x2 < width,
        0 <= c1 < channels,
        0 <= c2 < channels,
        sample_index(width, channels, x1, y1, c1) == sample_index(width, channels, x2, y2, c2),
    ensures
        x1 == x2,
        y1 == y2,
        c1 == c2,
{
    let w = width as int;
    lemma_mixed_radix_unique(y1 * w + x1, c1, y2 * w + x2, c2, channels as int);
    lemma_mixed_radix_unique(y1, x1, y2, x2, w);
}

/// Every sample that `buf` already holds is the one that `f` gives for its
/// place: the state of a buffer that is filled in row-major order.
pub open spec fn painted(
    buf: Seq<u8>,
    width: u32,
    channels: nat,
    f: spec_fn(int, int, int) -> u8,
) -> bool {
    forall|x: int, y: int, c: int|
        0 <= x < width && 0 <= y && 0 <= c < channels && #[trigger] sample_index(
            width,
            channels,
            x,
            y,
            c,
        ) < buf.len() ==> buf[sample_index(width, channels, x, y, c)] == f(x, y, c)
}

/// Appending the sample that belongs at the next place keeps a buffer painted.
pub proof fn lemma_painted_push(
    buf: Seq<u8>,
    v: u8,
    width: u32,
    channels: nat,
    x: int,
    y: int,
    c: int,
    f: spec_fn(int, int, int) -> u8,
)
    requires
        painted(buf, width, channels, f),
        0 <= x < width,
        0 <= c < channels,
        buf.len() == sample_index(width, channels, x, y, c),
        v == f(x, y, c),
    ensures
        painted(buf.push(v), width, channels, f),
{
    let next = buf.push(v);
    assert forall|x2: int, y2: int, c2: int|
        0 <= x2 < width && 0 <= y2 && 0 <= c2 < channels && #[trigger] sample_index(
            width,
            channels,
            x2,
            y2,
            c2,
        ) < next.len() implies next[sample_index(width, channels, x2, y2, c2)] == f(
        x2,
        y2,
        c2,
    ) by {
        let i = sample_index(width, channels, x2, y2, c2);
        if i == buf.len() {
            lemma_sample_index_injective(width, channels, x, y, c, x2, y2, c2);
        }
    }
}

/// The nearest value that a sample can hold.
pub open spec fn clamp_to_sample(v: int) -> u8 {
    if v < 0 {
        0
    } else if v > 255 {
        255
    } else {
        v as u8
    }
}

/// Sample `c` of pixel number `q`, counted in row-major order, of a buffer
/// with `channels` samples per pixel.
pub open spec fn channel_at(buf: Seq<u8>, channels: nat, q: int, c: int) -> u8 {
    buf[q * (channels as int) + c]
}

/// A sample of one of the first `total` pixels lies in the first
/// `total * channels` places.
pub proof fn lemma_channel_index(channels: nat, total: int, q: int, c: int)
    requires
        0 <= q < total,
        0 <= c < channels,
    ensures
        0 <= q * (channels as int) + c < total * (channels as int),
        q * (channels as int) + (channels as int) <= total * (channels as int),
{
    let n = channels as int;
    assert(0 <= q * n && q * n + n <= total * n) by (nonlinear_arith)
        requires
            0 <= q < total,
            0 <= n,
    ;
}

/// A decoded image held in memory.
#[derive(Clone, Debug, PartialEq, Eq)]
pub struct RasterImage {
    pub width: u32,
    pub height: u32,
    pub format: PixelFormat,
    pub pixels: Vec<u8>,
}

impl RasterImage {
    /// The buffer holds exactly one sample per channel of each pixel.
    pub open spec fn wf(&self) -> bool {
        self.pixels@.len() == sample_count(self.width, self.height, self.format.channel_count())
    }

    /// Sample `c` of the pixel in column `x` of row `y`.
    pub open spec fn sample(&self, x: int, y: int, c: int) -> u8
        recommends
            self.wf(),
            0 <= x < self.width,
            0 <= y < self.height,
            0 <= c < self.format.channel_count(),
    {
        self.pixels@[sample_index(self.width, self.format.channel_count(), x, y, c)]
    }

    /// Builds an image from its parts, if the buffer has the length that the
    /// dimensions and the format ask for.
    pub fn new(width: u32, height: u32, format: PixelFormat, pixels: Vec<u8>) -> (r: Result<
        RasterImage,
        ErrorKind,
    >)
        ensures
            pixels@.len() == sample_count(width, height, format.channel_count()) ==> r == Ok::<
                RasterImage,
                ErrorKind,
            >(RasterImage { width, height, format, pixels }),
            pixels@.len() != sample_count(width, height, format.channel_count()) ==> r == Err::<
                RasterImage,
                ErrorKind,
            >(ErrorKind::InvalidArgument),
    {
        let n: u128 = format.channels() as u128;
        assert((width as int) * (height as int) * (n as int) <= 0x1_0000_0000 * 0x1_0000_0000 * 4)
            by (nonlinear_arith)
            requires
                0 <= width < 0x1_0000_0000,
                0 <= height < 0x1_0000_0000,
                0 <= n <= 4,
        ;
        assert((width as int) * (height as int) <= 0x1_0000_0000 * 0x1_0000_0000)
            by (nonlinear_arith)
            requires
                0 <= width < 0x1_0000_0000,
                0 <= height < 0x1_0000_0000,
        ;
        let want: u128 = (width as u128) * (height as u128) * n;
        if pixels.len() as u128 == want {
            Ok(RasterImage { width, height, format, pixels })
        } else {
            Err(ErrorKind::InvalidArgument)
        }
    }

    /// The place in the buffer of sample `c` of the pixel at `(x, y)`.
    pub fn offset(&self, x: u32, y: u32, c: usize) -> (i: usize)
        requires
            self.wf(),
            x < self.width,
            y < self.height,
            c < self.format.channel_count(),
        ensures
            i == sample_index(self.width, self.format.channel_count(), x as int, y as int, c as int),
            i < self.pixels@.len(),
    {
        proof {
            lemma_sample_index_in_range(
                self.width,
                self.height,
                self.format.channel_count(),
                x as int,
                y as int,
                c as int,
            );
            let p = (y as int) * (self.width as int) + (x as int);
            let n = self.format.channel_count() as int;
            assert(0 <= (y as int) * (self.width as int) <= p) by (nonlinear_arith)
                requires
                    0 <= x,
                    0 <= y,
                    0 <= self.width,
                    p == (y as int) * (self.width as int) + (x as int),
            ;
            assert(p <= p * n <= p * n + c) by (nonlinear_arith)
                requires
                    0 <= p,
                    1 <= n,
                    0 <= c,
            ;
        }
        let n: usize = self.format.channels();
        let len: usize = self.pixels.len();
        assert(sample_index(self.width, self.format.channel_count(), x as int, y as int, c as int)
            < len);
        let row: usize = y as usize * self.width as usize;
        let p: usize = row + x as usize;
        p * n + c
    }

    /// Reads one sample.
    pub fn get(&self, x: u32, y: u32, c: usize) -> (v: u8)
        requires
            self.wf(),
            x < self.width,
            y < self.height,
            c < self.format.channel_count(),
        ensures
            v == self.sample(x as int, y as int, c as int),
    {
        let i: usize = self.offset(x, y, c);
        self.pixels[i]
    }
}

impl RasterImage {
    /// The number of pixels.
    pub open spec fn pixel_total(&self) -> nat {
        (self.width as nat) * (self.height as nat)
    }

    /// Sample `c` of pixel `q` once the pixel is written as red, green, blue
    /// and alpha: a luminance stands for all three colours, and a pixel
    /// without alpha is opaque.
    pub open spec fn rgba_sample(&self, q: int, c: int) -> u8 {
        match self.format {
            PixelFormat::Luma8 => if c < 3 {
                channel_at(self.pixels@, 1, q, 0)
            } else {
                255
            },
            PixelFormat::Rgb8 => if c < 3 {
                channel_at(self.pixels@, 3, q, c)
            } else {
                255
            },
            PixelFormat::Rgba8 => channel_at(self.pixels@, 4, q, c),
        }
    }

    /// The number of pixels.
    pub fn pixel_count(&self) -> (n: usize)
        requires
            self.wf(),
        ensures
            n == self.pixel_total(),
            n * self.format.channel_count() == self.pixels@.len(),
    {
        let len: usize = self.pixels.len();
        assert((self.width as int) * (self.height as int) <= (self.width as int) * (
        self.height as int) * (self.format.channel_count() as int)) by (nonlinear_arith)
            requires
                0 <= self.width,
                0 <= self.height,
                1 <= self.format.channel_count(),
        ;
        self.width as usize * self.height as usize
    }

    /// The number of the pixel in column `x` of row `y`.
    pub fn pixel_index(&self, x: u32, y: u32) -> (q: usize)
        requires
            self.wf(),
            x < self.width,
            y < self.height,
        ensures
            q == y * self.width + x,
            q < self.pixel_total(),
    {
        let total: usize = self.pixel_count();
        proof {
            lemma_sample_index_in_range(self.width, self.height, 1, x as int, y as int, 0);
            assert(0 <= (y as int) * (self.width as int)) by (nonlinear_arith)
                requires
                    0 <= y,
                    0 <= self.width,
            ;
        }
        y as usize * self.width as usize + x as usize
    }

    /// Pixel `q` as red, green, blue and alpha.
    pub fn rgba_at(&self, q: usize) -> (p: [u8; 4])
        requires
            self.wf(),
            q < self.pixel_total(),
        ensures
            forall|c: int| 0 <= c < 4 ==> (#[trigger] p@[c]) == self.rgba_sample(q as int, c),
    {
        let total: usize = self.pixel_count();
        let len: usize = self.pixels.len();
        match self.format {
            PixelFormat::Luma8 => {
                proof {
                    assert(self.format.channel_count() == 1);
                    assert(total * 1 == self.pixels@.len());
                    lemma_channel_index(1, total as int, q as int, 0);
                }
                let l: u8 = self.pixels[q];
                [l, l, l, 255]
            },
            PixelFormat::Rgb8 => {
                proof {
                    assert(self.format.channel_count() == 3);
                    assert(total * 3 == self.pixels@.len());
                    lemma_channel_index(3, total as int, q as int, 0);
                }
                [self.pixels[q * 3], self.pixels[q * 3 + 1], self.pixels[q * 3 + 2], 255]
            },
            PixelFormat::Rgba8 => {
                proof {
                    assert(self.format.channel_count() == 4);
                    assert(total * 4 == self.pixels@.len());
                    lemma_channel_index(4, total as int, q as int, 0);
                }
                [
                    self.pixels[q * 4],
                    self.pixels[q * 4 + 1],
                    self.pixels[q * 4 + 2],
                    self.pixels[q * 4 + 3],
                ]
            },
        }
    }

    /// Sample `c` of the pixel in column `x` of row `y`, the pixel written as
    /// red, green, blue and alpha.
    pub open spec fn color_sample(&self, x: int, y: int, c: int) -> u8 {
        self.rgba_sample(y * (self.width as int) + x, c)
    }

    /// Reads one sample of a pixel written as red, green, blue and alpha.
    pub fn color_at(&self, x: u32, y: u32, c: usize) -> (v: u8)
        requires
            self.wf(),
            x < self.width,
            y < self.height,
            c < 4,
        ensures
            v == self.color_sample(x as int, y as int, c as int),
    {
        let q: usize = self.pixel_index(x, y);
        let p: [u8; 4] = self.rgba_at(q);
        p[c]
    }

    /// The image with every pixel written as red, green, blue and alpha.
    pub fn to_rgba8(&self) -> (out: RasterImage)
        requires
            self.wf(),
        ensures
            out.wf(),
            out.width == self.width,
            out.height == self.height,
            out.format == PixelFormat::Rgba8,
            forall|q: int, c: int|
                0 <= q < self.pixel_total() && 0 <= c < 4 ==> #[trigger] channel_at(
                    out.pixels@,
                    4,
                    q,
                    c,
                ) == self.rgba_sample(q, c),
    {
        let total: usize = self.pixel_count();
        let mut pixels: Vec<u8> = Vec::new();
        let mut q: usize = 0;
        while q < total
            invariant
                q <= total,
                self.wf(),
                total == self.pixel_total(),
                pixels@.len() == q * 4,
                forall|q2: int, c: int|
                    0 <= q2 < q && 0 <= c < 4 ==> #[trigger] channel_at(pixels@, 4, q2, c)
                        == self.rgba_sample(q2, c),
            decreases total - q,
        {
            let p: [u8; 4] = self.rgba_at(q);
            let ghost before = pixels@;
            pixels.push(p[0]);
            pixels.push(p[1]);
            pixels.push(p[2]);
            pixels.push(p[3]);
            proof {
                assert forall|q2: int, c: int| 0 <= q2 < q + 1 && 0 <= c < 4 implies #[trigger] channel_at(
                    pixels@,
                    4,
                    q2,
                    c,
                ) == self.rgba_sample(q2, c) by {
                    if q2 < q {
                        lemma_channel_index(4, q as int, q2, c);
                        assert(channel_at(pixels@, 4, q2, c) == channel_at(before, 4, q2, c));
                    } else {
                        assert(p@[c] == self.rgba_sample(q as int, c));
                    }
                }
            }
            q = q + 1;
        }
        RasterImage { width: self.width, height: self.height, format: PixelFormat::Rgba8, pixels }
    }

    /// The image with the colour of every pixel replaced and its alpha kept:
    /// `colors` holds red, green and blue for each pixel in row-major order.
    /// A buffer of any other length is refused with `InvalidArgument`.
    pub fn with_colors(&self, colors: &Vec<u8>) -> (r: Result<RasterImage, ErrorKind>)
        requires
            self.wf(),
        ensures
            colors@.len() != self.pixel_total() * 3 ==> r == Err::<RasterImage, ErrorKind>(
                ErrorKind::InvalidArgument,
            ),
            colors@.len() == self.pixel_total() * 3 ==> r is Ok && {
                let out = r.unwrap();
                &&& out.wf()
                &&& out.width == self.width
                &&& out.height == self.height
                &&& out.format == PixelFormat::Rgba8
                &&& forall|q: int, c: int|
                    0 <= q < self.pixel_total() && 0 <= c < 4 ==> #[trigger] channel_at(
                        out.pixels@,
                        4,
                        q,
                        c,
                    ) == if c < 3 {
                        channel_at(colors@, 3, q, c)
                    } else {
                        self.rgba_sample(q, 3)
                    }
            },
    {
        let total: usize = self.pixel_count();
        let given: usize = colors.len();
        if given % 3 != 0 || given / 3 != total {
            return Err(ErrorKind::InvalidArgument);
        }
        let mut pixels: Vec<u8> = Vec::new();
        let mut q: usize = 0;
        while q < total
            invariant
                q <= total,
                self.wf(),
                total == self.pixel_total(),
                colors@.len() == total * 3,
                colors@.len() == given,
                pixels@.len() == q * 4,
                forall|q2: int, c: int|
                    0 <= q2 < q && 0 <= c < 4 ==> #[trigger] channel_at(pixels@, 4, q2, c) == if c
                        < 3 {
                        channel_at(colors@, 3, q2, c)
                    } else {
                        self.rgba_sample(q2, 3)
                    },
            decreases total - q,
        {
            let p: [u8; 4] = self.rgba_at(q);
            proof {
                lemma_channel_index(3, total as int, q as int, 0);
            }
            let ghost before = pixels@;
            pixels.push(colors[q * 3]);
            pixels.push(colors[q * 3 + 1]);
            pixels.push(colors[q * 3 + 2]);
            pixels.push(p[3]);
            proof {
                assert forall|q2: int, c: int| 0 <= q2 < q + 1 && 0 <= c < 4 implies #[trigger] channel_at(
                    pixels@,
                    4,
                    q2,
                    c,
                ) == if c < 3 {
                    channel_at(colors@, 3, q2, c)
                } else {
                    self.rgba_sample(q2, 3)
                } by {
                    if q2 < q {
                        lemma_channel_index(4, q as int, q2, c);
                        assert(channel_at(pixels@, 4, q2, c) == channel_at(before, 4, q2, c));
                    } else {
                        assert(p@[3] == self.rgba_sample(q as int, 3));
                    }
                }
            }
            q = q + 1;
        }
        Ok(RasterImage { width: self.width, height: self.height, format: PixelFormat::Rgba8, pixels })
    }

    /// The image with every pixel written as red, green and blue; alpha is
    /// dropped.
    pub fn to_rgb8(&self) -> (out: RasterImage)
        requires
            self.wf(),
        ensures
            out.wf(),
            out.width == self.width,
            out.height == self.height,
            out.format == PixelFormat::Rgb8,
            forall|q: int, c: int|
                0 <= q < self.pixel_total() && 0 <= c < 3 ==> #[trigger] channel_at(
                    out.pixels@,
                    3,
                    q,
                    c,
                ) == self.rgba_sample(q, c),
    {
        let total: usize = self.pixel_count();
        let mut pixels: Vec<u8> = Vec::new();
        let mut q: usize = 0;
        while q < total
            invariant
                q <= total,
                self.wf(),
                total == self.pixel_total(),
                pixels@.len() == q * 3,
                forall|q2: int, c: int|
                    0 <= q2 < q && 0 <= c < 3 ==> #[trigger] channel_at(pixels@, 3, q2, c)
                        == self.rgba_sample(q2, c),
            decreases total - q,
        {
            let p: [u8; 4] = self.rgba_at(q);
            let ghost before = pixels@;
            pixels.push(p[0]);
            pixels.push(p[1]);
            pixels.push(p[2]);
            proof {
                assert forall|q2: int, c: int| 0 <= q2 < q + 1 && 0 <= c < 3 implies #[trigger] channel_at(
                    pixels@,
                    3,
                    q2,
                    c,
                ) == self.rgba_sample(q2, c) by {
                    if q2 < q {
                        lemma_channel_index(3, q as int, q2, c);
                        assert(channel_at(pixels@, 3, q2, c) == channel_at(before, 3, q2, c));
                    } else {
                        assert(p@[c] == self.rgba_sample(q as int, c));
                    }
                }
            }
            q = q + 1;
        }
        RasterImage { width: self.width, height: self.height, format: PixelFormat::Rgb8, pixels }
    }
}

} // verus!
