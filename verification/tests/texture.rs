use image::{DynamicImage, GrayImage, ImageBuffer, Luma, Rgb, Rgb32FImage, RgbImage, Rgba, Rgba32FImage, RgbaImage};
use lab_graphics::color::Bgra8;
use lab_graphics::texture::Texture;

#[test]
fn texel_swaps_red_and_blue_and_drops_alpha() {
    let mut img = RgbaImage::new(3, 2);
    img.put_pixel(0, 0, Rgba([1, 2, 3, 4]));
    img.put_pixel(2, 1, Rgba([200, 100, 50, 25]));
    let texture = Texture::new(DynamicImage::ImageRgba8(img));
    assert!(texture.is_readable());
    assert_eq!(texture.width(), 3);
    assert_eq!(texture.height(), 2);
    assert_eq!(texture.texel(0, 0), Some(Bgra8 { b: 3, g: 2, r: 1, a: 0 }));
    assert_eq!(texture.texel(2, 1), Some(Bgra8 { b: 50, g: 100, r: 200, a: 0 }));
    assert_eq!(texture.texel(1, 1), Some(Bgra8 { b: 0, g: 0, r: 0, a: 0 }));
}

#[test]
fn texel_outside_the_image_is_none() {
    let texture = Texture::new(DynamicImage::ImageRgb8(RgbImage::new(3, 2)));
    assert_eq!(texture.texel(3, 0), None);
    assert_eq!(texture.texel(0, 2), None);
    assert_eq!(texture.texel(u32::MAX, u32::MAX), None);
    let empty = Texture::new(DynamicImage::ImageRgb8(RgbImage::new(0, 0)));
    assert_eq!(empty.width(), 0);
    assert_eq!(empty.texel(0, 0), None);
}

#[test]
fn texel_of_other_formats_is_converted() {
    let mut rgb = RgbImage::new(2, 2);
    rgb.put_pixel(1, 0, Rgb([9, 8, 7]));
    let texture = Texture::new(DynamicImage::ImageRgb8(rgb));
    assert_eq!(texture.texel(1, 0), Some(Bgra8 { b: 7, g: 8, r: 9, a: 0 }));
    let mut gray = GrayImage::new(1, 3);
    gray.put_pixel(0, 2, Luma([77]));
    let texture = Texture::new(DynamicImage::ImageLuma8(gray));
    assert_eq!(texture.height(), 3);
    assert_eq!(texture.texel(0, 2), Some(Bgra8 { b: 77, g: 77, r: 77, a: 0 }));
}

#[test]
fn texel_of_sixteen_bit_samples_is_scaled_to_a_byte() {
    let mut deep: ImageBuffer<Rgb<u16>, Vec<u16>> = ImageBuffer::new(2, 1);
    deep.put_pixel(1, 0, Rgb([65535, 0, 32768]));
    let texture = Texture::new(DynamicImage::ImageRgb16(deep));
    assert!(texture.is_readable());
    assert_eq!(texture.texel(1, 0), Some(Bgra8 { b: 128, g: 0, r: 255, a: 0 }));
}

#[test]
fn float_image_has_no_texels() {
    let plain = Rgb32FImage::from_raw(1, 1, vec![0.5, 0.25, 1.0]).unwrap();
    let texture = Texture::new(DynamicImage::ImageRgb32F(plain));
    assert!(!texture.is_readable());
    assert_eq!(texture.width(), 1);
    assert_eq!(texture.height(), 1);
    assert_eq!(texture.texel(0, 0), None);
}

#[test]
fn float_image_with_a_nan_sample_is_not_read() {
    let rgb = Rgb32FImage::from_raw(2, 1, vec![f32::NAN, 0.0, 0.0, 0.0, f32::NAN, 1.0]).unwrap();
    let texture = Texture::new(DynamicImage::ImageRgb32F(rgb));
    assert!(!texture.is_readable());
    assert_eq!(texture.texel(0, 0), None);
    assert_eq!(texture.texel(1, 0), None);
    let rgba = Rgba32FImage::from_raw(1, 1, vec![0.0, 0.0, 0.0, f32::NAN]).unwrap();
    let texture = Texture::new(DynamicImage::ImageRgba32F(rgba));
    assert!(!texture.is_readable());
    assert_eq!(texture.texel(0, 0), None);
}
