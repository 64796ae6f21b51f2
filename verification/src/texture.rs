//! Textures: decoded images read texel by texel.
//!
//! The image itself is held and decoded by the `image` crate. What this
//! module knows of it is stated by the contracts of three small functions
//! that call into that crate or look at its value; they are believed, not
//! proved. Only images with integer samples are read: the crate's
//! conversion of a floating-point sample to a byte panics on a NaN.

use vstd::prelude::*;
use image::DynamicImage;
use image::GenericImageView;
use crate::color::Bgra8;

verus! {

/// `image::DynamicImage`, a decoded image in any of its pixel formats. It
/// is carried as it is; nothing inside it is visible here.
#[verifier::external_type_specification]
#[verifier::external_body]
pub struct ExDynamicImage(DynamicImage);

/// The pixels of an image: red, green, blue and alpha at each column and
/// row, the rows counted from the top.
pub uninterp spec fn image_pixels(img: DynamicImage) -> Map<(int, int), (u8, u8, u8, u8)>;

/// The width and the height of an image.
pub uninterp spec fn image_dimensions(img: DynamicImage) -> (nat, nat);

/// Whether the samples of an image are integers, of eight or of sixteen
/// bits, and not floating-point numbers.
pub uninterp spec fn image_has_integer_samples(img: DynamicImage) -> bool;

/// Tells the variants of `DynamicImage` apart: the eight with integer
/// samples are what `image_has_integer_samples` names. Any other variant,
/// the two with 32-bit floating-point samples among them, is not.
#[verifier::external_body]
fn has_integer_samples(img: &DynamicImage) -> (integer: bool)
    ensures
        integer == image_has_integer_samples(*img),
{
    match img {
        DynamicImage::ImageLuma8(_) => true,
        DynamicImage::ImageLumaA8(_) => true,
        DynamicImage::ImageRgb8(_) => true,
        DynamicImage::ImageRgba8(_) => true,
        DynamicImage::ImageLuma16(_) => true,
        DynamicImage::ImageLumaA16(_) => true,
        DynamicImage::ImageRgb16(_) => true,
        DynamicImage::ImageRgba16(_) => true,
        _ => false,
    }
}

/// Calls `GenericImageView::dimensions` of `DynamicImage`: the width and
/// the height of the image, which are what `image_dimensions` names.
#[verifier::external_body]
fn dimensions(img: &DynamicImage) -> (size: (u32, u32))
    ensures
        size.0 == image_dimensions(*img).0,
        size.1 == image_dimensions(*img).1,
{
    img.dimensions()
}

/// Calls `GenericImageView::get_pixel` of `DynamicImage`, which converts
/// the pixel at `(x, y)` to eight-bit RGBA: the result is what
/// `image_pixels` names at that place. The call panics outside the image,
/// and on a floating-point sample that is a NaN, so the place must lie
/// inside and the samples must be integers.
#[verifier::external_body]
fn get_pixel(img: &DynamicImage, x: u32, y: u32) -> (rgba: (u8, u8, u8, u8))
    requires
        image_has_integer_samples(*img),
        x < image_dimensions(*img).0,
        y < image_dimensions(*img).1,
    ensures
        rgba == image_pixels(*img)[(x as int, y as int)],
{
    let p = img.get_pixel(x, y).0;
    (p[0], p[1], p[2], p[3])
}

/// An image to be sampled by the texture, bump and displacement shaders.
pub struct Texture {
    img: DynamicImage,
}

impl View for Texture {
    type V = DynamicImage;

    /// The image that the texture was made of.
    closed spec fn view(&self) -> DynamicImage {
        self.img
    }
}

impl Texture {
    pub open spec fn spec_width(&self) -> nat {
        image_dimensions(self@).0
    }

    pub open spec fn spec_height(&self) -> nat {
        image_dimensions(self@).1
    }

    /// Whether the texture can be read: the samples of its image are
    /// integers.
    pub open spec fn spec_readable(&self) -> bool {
        image_has_integer_samples(self@)
    }

    /// The color stored at column `x` and row `y` of the image, the rows
    /// counted from the top: the channels of the image in the order of the
    /// frame buffer. The alpha of the image is dropped.
    pub open spec fn spec_texel(&self, x: int, y: int) -> Bgra8 {
        let rgba = image_pixels(self@)[(x, y)];
        Bgra8 { b: rgba.2, g: rgba.1, r: rgba.0, a: 0 }
    }

    pub fn new(img: DynamicImage) -> (texture: Self)
        ensures
            texture@ == img,
    {
        Texture { img }
    }

    pub fn width(&self) -> (w: u32)
        ensures
            w == self.spec_width(),
    {
        dimensions(&self.img).0
    }

    pub fn height(&self) -> (h: u32)
        ensures
            h == self.spec_height(),
    {
        dimensions(&self.img).1
    }

    /// Whether the texture can be read: an image with floating-point
    /// samples has no texels.
    pub fn is_readable(&self) -> (readable: bool)
        ensures
            readable == self.spec_readable(),
    {
        has_integer_samples(&self.img)
    }

    /// The texel at column `x` and row `y`, the rows counted from the top,
    /// or `None` outside the image and for an image with floating-point
    /// samples.
    pub fn texel(&self, x: u32, y: u32) -> (color: Option<Bgra8>)
        ensures
            color == if self.spec_readable() && x < self.spec_width() && y < self.spec_height() {
                Some(self.spec_texel(x as int, y as int))
            } else {
                None
            },
    {
        if !has_integer_samples(&self.img) {
            return None;
        }
        let size = dimensions(&self.img);
        if x >= size.0 || y >= size.1 {
            return None;
        }
        let rgba = get_pixel(&self.img, x, y);
        Some(Bgra8 { b: rgba.2, g: rgba.1, r: rgba.0, a: 0 })
    }
}

} // verus!
