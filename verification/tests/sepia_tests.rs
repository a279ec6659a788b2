use optimaimg::raster::{PixelFormat, RasterImage};
use optimaimg::sepia::{apply_sepia, sepia_pixel};

fn image(width: u32, height: u32, format: PixelFormat, pixels: Vec<u8>) -> RasterImage {
    RasterImage::new(width, height, format, pixels).expect("buffer matches")
}

#[test]
fn sepia_of_black_is_black() {
    assert_eq!(sepia_pixel([0, 0, 0, 255]), [0, 0, 0, 255]);
}

#[test]
fn sepia_of_white_is_capped() {
    // 1.351 * 255 and 1.203 * 255 exceed 255; 0.937 * 255 = 238.935.
    assert_eq!(sepia_pixel([255, 255, 255, 255]), [255, 255, 238, 255]);
}

#[test]
fn sepia_of_a_colour() {
    // r: 39.3 + 115.35 + 37.8 = 192.45; g: 34.9 + 102.9 + 33.6 = 171.4;
    // b: 27.2 + 80.1 + 26.2 = 133.5
    assert_eq!(sepia_pixel([100, 150, 200, 7]), [192, 171, 133, 7]);
    assert_eq!(sepia_pixel([255, 0, 0, 0]), [100, 88, 69, 0]);
    assert_eq!(sepia_pixel([0, 255, 0, 1]), [196, 174, 136, 1]);
    assert_eq!(sepia_pixel([0, 0, 255, 2]), [48, 42, 33, 2]);
}

#[test]
fn sepia_keeps_alpha() {
    for a in [0u8, 1, 128, 254, 255] {
        assert_eq!(sepia_pixel([9, 9, 9, a])[3], a);
    }
}

#[test]
fn sepia_of_an_image_tones_every_pixel() {
    let img = image(2, 2, PixelFormat::Rgba8, vec![
        0, 0, 0, 255, 255, 255, 255, 10, 100, 150, 200, 7, 255, 0, 0, 0,
    ]);
    let out = apply_sepia(&img);
    assert_eq!(
        out,
        image(2, 2, PixelFormat::Rgba8, vec![
            0, 0, 0, 255, 255, 255, 238, 10, 192, 171, 133, 7, 100, 88, 69, 0,
        ])
    );
}

#[test]
fn sepia_of_an_image_without_alpha_is_opaque() {
    let out = apply_sepia(&image(1, 2, PixelFormat::Rgb8, vec![100, 150, 200, 0, 0, 0]));
    assert_eq!(out, image(1, 2, PixelFormat::Rgba8, vec![192, 171, 133, 255, 0, 0, 0, 255]));
    let out = apply_sepia(&image(1, 1, PixelFormat::Luma8, vec![255]));
    assert_eq!(out, image(1, 1, PixelFormat::Rgba8, vec![255, 255, 238, 255]));
}

#[test]
fn sepia_of_an_empty_image() {
    let out = apply_sepia(&image(0, 3, PixelFormat::Rgb8, vec![]));
    assert_eq!(out, image(0, 3, PixelFormat::Rgba8, vec![]));
}
