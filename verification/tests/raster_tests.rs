use optimaimg::error::ErrorKind;
use optimaimg::raster::{PixelFormat, RasterImage};

fn image(width: u32, height: u32, format: PixelFormat, pixels: Vec<u8>) -> RasterImage {
    RasterImage::new(width, height, format, pixels).expect("buffer matches the dimensions")
}

#[test]
fn channels_per_format() {
    assert_eq!(PixelFormat::Luma8.channels(), 1);
    assert_eq!(PixelFormat::Rgb8.channels(), 3);
    assert_eq!(PixelFormat::Rgba8.channels(), 4);
}

#[test]
fn new_accepts_a_buffer_of_the_right_length() {
    let img = image(2, 1, PixelFormat::Rgb8, vec![1, 2, 3, 4, 5, 6]);
    assert_eq!(img.width, 2);
    assert_eq!(img.height, 1);
    assert_eq!(img.format, PixelFormat::Rgb8);
    assert_eq!(img.pixels, vec![1, 2, 3, 4, 5, 6]);
}

#[test]
fn new_refuses_a_buffer_of_the_wrong_length() {
    assert_eq!(
        RasterImage::new(2, 2, PixelFormat::Rgb8, vec![0; 11]),
        Err(ErrorKind::InvalidArgument)
    );
    assert_eq!(
        RasterImage::new(2, 2, PixelFormat::Luma8, vec![0; 5]),
        Err(ErrorKind::InvalidArgument)
    );
    assert_eq!(
        RasterImage::new(0, 7, PixelFormat::Rgba8, vec![0]),
        Err(ErrorKind::InvalidArgument)
    );
}

#[test]
fn new_accepts_an_empty_image() {
    let img = image(0, 7, PixelFormat::Rgba8, vec![]);
    assert_eq!(img.pixel_count(), 0);
}

#[test]
fn new_does_not_overflow_on_huge_dimensions() {
    assert_eq!(
        RasterImage::new(u32::MAX, u32::MAX, PixelFormat::Rgba8, vec![0; 4]),
        Err(ErrorKind::InvalidArgument)
    );
}

#[test]
fn samples_lie_in_row_major_order() {
    let img = image(2, 2, PixelFormat::Rgb8, (0u8..12).collect());
    assert_eq!(img.offset(0, 0, 0), 0);
    assert_eq!(img.offset(1, 0, 2), 5);
    assert_eq!(img.offset(0, 1, 0), 6);
    assert_eq!(img.offset(1, 1, 1), 10);
    assert_eq!(img.get(1, 1, 1), 10);
    assert_eq!(img.pixel_index(1, 1), 3);
    assert_eq!(img.pixel_count(), 4);
}

#[test]
fn rgba_at_reads_each_format() {
    let luma = image(2, 1, PixelFormat::Luma8, vec![7, 9]);
    assert_eq!(luma.rgba_at(1), [9, 9, 9, 255]);
    let rgb = image(2, 1, PixelFormat::Rgb8, vec![1, 2, 3, 4, 5, 6]);
    assert_eq!(rgb.rgba_at(1), [4, 5, 6, 255]);
    let rgba = image(2, 1, PixelFormat::Rgba8, vec![1, 2, 3, 4, 5, 6, 7, 8]);
    assert_eq!(rgba.rgba_at(1), [5, 6, 7, 8]);
}

#[test]
fn to_rgba8_adds_full_opacity() {
    let rgb = image(2, 1, PixelFormat::Rgb8, vec![1, 2, 3, 4, 5, 6]);
    assert_eq!(
        rgb.to_rgba8(),
        image(2, 1, PixelFormat::Rgba8, vec![1, 2, 3, 255, 4, 5, 6, 255])
    );
    let luma = image(1, 2, PixelFormat::Luma8, vec![10, 20]);
    assert_eq!(
        luma.to_rgba8(),
        image(1, 2, PixelFormat::Rgba8, vec![10, 10, 10, 255, 20, 20, 20, 255])
    );
    let rgba = image(1, 1, PixelFormat::Rgba8, vec![1, 2, 3, 4]);
    assert_eq!(rgba.to_rgba8(), rgba);
}

#[test]
fn to_rgb8_drops_alpha() {
    let rgba = image(2, 1, PixelFormat::Rgba8, vec![1, 2, 3, 4, 5, 6, 7, 8]);
    assert_eq!(rgba.to_rgb8(), image(2, 1, PixelFormat::Rgb8, vec![1, 2, 3, 5, 6, 7]));
    let luma = image(1, 1, PixelFormat::Luma8, vec![42]);
    assert_eq!(luma.to_rgb8(), image(1, 1, PixelFormat::Rgb8, vec![42, 42, 42]));
}

#[test]
fn conversions_agree_with_the_image_crate() {
    let pixels: Vec<u8> = (0..24).map(|i| (i * 11 % 256) as u8).collect();
    let rgb = image(4, 2, PixelFormat::Rgb8, pixels.clone());
    let theirs = image::DynamicImage::ImageRgb8(
        image::RgbImage::from_raw(4, 2, pixels).expect("fits"),
    );
    assert_eq!(rgb.to_rgba8().pixels, theirs.to_rgba8().into_raw());
    assert_eq!(rgb.to_rgb8().pixels, theirs.to_rgb8().into_raw());
}

#[test]
fn error_kinds_have_a_text() {
    assert_eq!(ErrorKind::DecodeFailure.describe(), "failed to open image");
    assert_eq!(ErrorKind::EncodeFailure.describe(), "failed to save image");
    assert_eq!(ErrorKind::InvalidArgument.describe(), "invalid argument");
    assert_eq!(ErrorKind::OutOfBounds.describe(), "overlay exceeds the base image");
    assert_eq!(ErrorKind::Timeout.describe(), "timed out");
}

#[test]
fn color_at_reads_by_column_and_row() {
    let luma = image(2, 2, PixelFormat::Luma8, vec![1, 2, 3, 4]);
    assert_eq!(luma.color_at(1, 0, 0), 2);
    assert_eq!(luma.color_at(0, 1, 2), 3);
    assert_eq!(luma.color_at(1, 1, 3), 255);
    let rgba = image(1, 2, PixelFormat::Rgba8, vec![1, 2, 3, 4, 5, 6, 7, 8]);
    assert_eq!(rgba.color_at(0, 1, 1), 6);
    assert_eq!(rgba.color_at(0, 1, 3), 8);
}

#[test]
fn with_colors_keeps_alpha() {
    let rgba = image(2, 1, PixelFormat::Rgba8, vec![1, 2, 3, 4, 5, 6, 7, 8]);
    assert_eq!(
        rgba.with_colors(&vec![10, 20, 30, 40, 50, 60]),
        Ok(image(2, 1, PixelFormat::Rgba8, vec![10, 20, 30, 4, 40, 50, 60, 8]))
    );
    let rgb = image(1, 1, PixelFormat::Rgb8, vec![1, 2, 3]);
    assert_eq!(
        rgb.with_colors(&vec![9, 8, 7]),
        Ok(image(1, 1, PixelFormat::Rgba8, vec![9, 8, 7, 255]))
    );
    let empty = image(0, 0, PixelFormat::Luma8, vec![]);
    assert_eq!(empty.with_colors(&vec![]), Ok(image(0, 0, PixelFormat::Rgba8, vec![])));
}

#[test]
fn with_colors_refuses_a_buffer_of_the_wrong_length() {
    let rgba = image(2, 1, PixelFormat::Rgba8, vec![1, 2, 3, 4, 5, 6, 7, 8]);
    assert_eq!(rgba.with_colors(&vec![1, 2, 3]), Err(ErrorKind::InvalidArgument));
    assert_eq!(rgba.with_colors(&vec![0; 7]), Err(ErrorKind::InvalidArgument));
    assert_eq!(rgba.with_colors(&vec![0; 8]), Err(ErrorKind::InvalidArgument));
    assert_eq!(rgba.with_colors(&vec![]), Err(ErrorKind::InvalidArgument));
}
