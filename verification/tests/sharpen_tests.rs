use optimaimg::raster::{PixelFormat, RasterImage};
use optimaimg::sharpen::{apply_convolution, sharpen_kernel};

fn rgb(width: u32, height: u32, pixels: Vec<u8>) -> RasterImage {
    RasterImage::new(width, height, PixelFormat::Rgb8, pixels).expect("buffer matches")
}

fn grey_rgb(width: u32, height: u32, levels: &[u8]) -> RasterImage {
    let mut pixels = Vec::new();
    for &l in levels {
        pixels.push(l);
        pixels.push(l);
        pixels.push(l);
    }
    rgb(width, height, pixels)
}

#[test]
fn kernel_has_the_sharpening_weights() {
    assert_eq!(sharpen_kernel(), [[0, -1, 0], [-1, 5, -1], [0, -1, 0]]);
}

#[test]
fn kernel_weights_add_up_to_one() {
    let sum: i32 = sharpen_kernel().iter().flatten().sum();
    assert_eq!(sum, 1);
}

#[test]
fn sharpening_a_uniform_image_changes_nothing() {
    let mut pixels = Vec::new();
    for _ in 0..(5 * 4) {
        pixels.push(10);
        pixels.push(200);
        pixels.push(255);
    }
    let img = rgb(5, 4, pixels);
    assert_eq!(apply_convolution(&img), img);
}

#[test]
fn interior_pixel_is_the_kernel_sum() {
    // 3x3, one interior pixel: 5 * 100 - 10 - 20 - 30 - 40 = 400 -> 255.
    let img = grey_rgb(3, 3, &[1, 10, 2, 20, 100, 30, 3, 40, 4]);
    let out = apply_convolution(&img);
    assert_eq!(out.get(1, 1, 0), 255);
    // 5 * 50 - 10 - 20 - 30 - 40 = 150.
    let img = grey_rgb(3, 3, &[1, 10, 2, 20, 50, 30, 3, 40, 4]);
    let out = apply_convolution(&img);
    assert_eq!(out.get(1, 1, 0), 150);
    assert_eq!(out.get(1, 1, 1), 150);
    assert_eq!(out.get(1, 1, 2), 150);
    // 5 * 10 - 4 * 100 = -350 -> 0.
    let img = grey_rgb(3, 3, &[0, 100, 0, 100, 10, 100, 0, 100, 0]);
    assert_eq!(apply_convolution(&img).get(1, 1, 0), 0);
}

#[test]
fn channels_are_sharpened_separately() {
    let mut pixels = vec![0u8; 27];
    // centre pixel (1, 1): r = 60, g = 0, b = 20
    pixels[4 * 3] = 60;
    pixels[4 * 3 + 2] = 20;
    // left neighbour (0, 1): r = 50
    pixels[3 * 3] = 50;
    let out = apply_convolution(&rgb(3, 3, pixels));
    assert_eq!(out.get(1, 1, 0), 250);
    assert_eq!(out.get(1, 1, 1), 0);
    assert_eq!(out.get(1, 1, 2), 100);
}

#[test]
fn border_pixels_are_copied() {
    let levels: Vec<u8> = (0..16).map(|i| (i * 13) as u8).collect();
    let img = grey_rgb(4, 4, &levels);
    let out = apply_convolution(&img);
    assert_eq!(out.width, 4);
    assert_eq!(out.height, 4);
    assert_eq!(out.format, PixelFormat::Rgb8);
    for y in 0..4u32 {
        for x in 0..4u32 {
            if x == 0 || y == 0 || x == 3 || y == 3 {
                assert_eq!(out.get(x, y, 0), img.get(x, y, 0));
            }
        }
    }
    // (1, 1): 5 * 65 - 13 - 52 - 78 - 117 = 65
    assert_eq!(out.get(1, 1, 0), 65);
}

#[test]
fn images_without_interior_are_copied() {
    let img = grey_rgb(2, 2, &[1, 2, 3, 4]);
    assert_eq!(apply_convolution(&img), img);
    let img = grey_rgb(1, 5, &[1, 2, 3, 4, 5]);
    assert_eq!(apply_convolution(&img), img);
    let empty = rgb(0, 0, vec![]);
    assert_eq!(apply_convolution(&empty), empty);
}

#[test]
fn grey_and_transparent_images_are_sharpened_by_their_colours() {
    let levels = [1u8, 10, 2, 20, 50, 30, 3, 40, 4];
    let expected = apply_convolution(&grey_rgb(3, 3, &levels));
    let luma = RasterImage::new(3, 3, PixelFormat::Luma8, levels.to_vec()).expect("buffer matches");
    assert_eq!(apply_convolution(&luma), expected);
    let mut rgba = Vec::new();
    for (i, &l) in levels.iter().enumerate() {
        rgba.extend_from_slice(&[l, l, l, (i * 20) as u8]);
    }
    let rgba = RasterImage::new(3, 3, PixelFormat::Rgba8, rgba).expect("buffer matches");
    assert_eq!(apply_convolution(&rgba), expected);
    assert_eq!(expected.get(1, 1, 0), 150);
}
