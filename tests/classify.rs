use marker_scan::classify::{frame_is_marker, image_is_mictest, PixelBuffer};

fn buffer(n: u32, base: [u8; 3], noisy: u32) -> PixelBuffer {
    let mut rgba = Vec::new();
    for i in 0..n {
        let px = if i < noisy { [200, 30, 30] } else { base };
        rgba.extend_from_slice(&[px[0], px[1], px[2], 255]);
    }
    PixelBuffer { width: n, height: 1, rgba }
}

#[test]
fn grey_frame_is_marker() {
    assert!(frame_is_marker(&buffer(100, [128, 128, 128], 0)));
}

#[test]
fn white_frame_is_marker() {
    assert!(frame_is_marker(&buffer(100, [230, 240, 250], 0)));
}

#[test]
fn black_frame_is_not_marker() {
    assert!(!frame_is_marker(&buffer(100, [0, 0, 0], 0)));
    assert!(!frame_is_marker(&buffer(100, [10, 5, 19], 0)));
}

#[test]
fn two_percent_noise_is_not_marker() {
    assert!(!frame_is_marker(&buffer(100, [128, 128, 128], 2)));
}

#[test]
fn one_percent_noise_is_marker() {
    assert!(frame_is_marker(&buffer(100, [128, 128, 128], 1)));
    assert!(frame_is_marker(&buffer(250, [128, 128, 128], 2)));
    assert!(!frame_is_marker(&buffer(250, [128, 128, 128], 3)));
}

#[test]
fn empty_frame_is_not_marker() {
    assert!(!frame_is_marker(&buffer(0, [128, 128, 128], 0)));
}

#[test]
fn decoded_images() {
    let grey = image::RgbImage::from_pixel(10, 10, image::Rgb([128, 128, 128]));
    assert!(image_is_mictest(image::DynamicImage::ImageRgb8(grey)));
    let black = image::RgbImage::from_pixel(10, 10, image::Rgb([0, 0, 0]));
    assert!(!image_is_mictest(image::DynamicImage::ImageRgb8(black)));
    let mut noisy = image::RgbImage::from_pixel(10, 10, image::Rgb([128, 128, 128]));
    noisy.put_pixel(0, 0, image::Rgb([255, 0, 0]));
    noisy.put_pixel(1, 0, image::Rgb([0, 255, 0]));
    assert!(!image_is_mictest(image::DynamicImage::ImageRgb8(noisy)));
}
