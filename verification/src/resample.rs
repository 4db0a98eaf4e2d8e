//! The two steps that turn a decoded image into the grid that is
//! fingerprinted: luminance, then resampling to the grid's size. Both are the
//! work of the `image` crate.

use crate::raster::DecodedImage;
use vstd::prelude::*;

verus! {

/// Side of the grid that an image is resampled to.
pub const GRID_SIDE: u32 = 8;

/// Luminance of a colour: the weighted sum of red, green and blue that the
/// `image` crate uses for eight-bit channels, rounded down.
pub open spec fn luma_of(red: u8, green: u8, blue: u8) -> int {
    (2126 * red + 7152 * green + 722 * blue) / 10000
}

/// Luminance is a channel value again, and that of a gray is the gray.
pub proof fn lemma_luma_of(red: u8, green: u8, blue: u8)
    ensures
        0 <= luma_of(red, green, blue) <= 255,
        red == green && green == blue ==> luma_of(red, green, blue) == red,
{
}

/// The luminance image of four-channel samples: for each pixel its luminance
/// and, unchanged, its alpha.
pub open spec fn luminance_samples(rgba: Seq<u8>) -> Seq<u8> {
    Seq::new(
        rgba.len() / 2,
        |j: int|
            if j % 2 == 0 {
                luma_of(rgba[2 * j], rgba[2 * j + 1], rgba[2 * j + 2]) as u8
            } else {
                rgba[2 * j + 1]
            },
    )
}

/// What `image::imageops::resize` with the `Lanczos3` filter makes of a
/// luminance image of `width` by `height` pixels, asked for `new_width` by
/// `new_height` pixels: the samples of the result, four for each pixel.
pub uninterp spec fn lanczos3_resized(
    width: u32,
    height: u32,
    gray: Seq<u8>,
    new_width: u32,
    new_height: u32,
) -> Seq<u8>;

/// Calls `image::DynamicImage::grayscale` on an image of four eight-bit
/// channels. Trusted: the result has two samples for each pixel, in the
/// order of the pixels; the first is the pixel's luminance as `luma_of` gives
/// it, the second its alpha.
#[verifier::external_body]
fn grayscale_alpha(width: u32, height: u32, rgba: &Vec<u8>) -> (gray: Vec<u8>)
    requires
        rgba@.len() == 4 * width * height,
    ensures
        gray@ == luminance_samples(rgba@),
{
    let colour = image::RgbaImage::from_raw(width, height, rgba.clone()).unwrap();
    image::DynamicImage::ImageRgba8(colour).grayscale().into_luma_alpha8().into_raw()
}

/// Calls `image::imageops::resize` with the `Lanczos3` filter on a luminance
/// image with alpha, seen through `image::DynamicImage` as the resampler of
/// the `image` crate sees any image: with four channels for each pixel.
/// Trusted: the call returns for these arguments, its result depends on them
/// alone, and it holds four samples for each pixel asked for.
#[verifier::external_body]
fn lanczos3_resize(width: u32, height: u32, gray: &Vec<u8>, new_width: u32, new_height: u32) -> (grid:
    Vec<u8>)
    requires
        gray@.len() == 2 * width * height,
        16 * width * new_height <= isize::MAX,
        4 * new_width * new_height <= isize::MAX,
    ensures
        grid@ == lanczos3_resized(width, height, gray@, new_width, new_height),
        grid@.len() == 4 * new_width * new_height,
{
    let gray = image::GrayAlphaImage::from_raw(width, height, gray.clone()).unwrap();
    let seen = image::DynamicImage::ImageLumaA8(gray);
    let filter = image::imageops::FilterType::Lanczos3;
    image::imageops::resize(&seen, new_width, new_height, filter).into_raw()
}

/// The samples of the grid that an image is resampled to.
pub open spec fn resampled_grid(image: crate::raster::Raster) -> Seq<u8> {
    lanczos3_resized(
        image.width,
        image.height,
        luminance_samples(image.samples),
        GRID_SIDE,
        GRID_SIDE,
    )
}

proof fn lemma_half_of_samples(width: u32, height: u32)
    by (nonlinear_arith)
    ensures
        (4 * width * height) / 2 == 2 * width * height,
        16 * width * 8 == 128 * width,
{
}

/// The luminance image of a decoded image: two samples for each pixel, its
/// luminance and its alpha.
pub fn luminance(image: &DecodedImage) -> (gray: Vec<u8>)
    ensures
        gray@ == luminance_samples(image@.samples),
        gray@.len() == 2 * image@.width * image@.height,
{
    let samples = image.samples();
    proof {
        lemma_half_of_samples(image@.width, image@.height);
    }
    grayscale_alpha(image.width(), image.height(), samples)
}

/// Resamples the luminance of a decoded image to the grid: sixty-four
/// pixels in scan order, four samples each.
pub fn resample(image: &DecodedImage) -> (grid: Vec<u8>)
    ensures
        grid@ == resampled_grid(image@),
        grid@.len() == 256,
{
    let samples = image.samples();
    proof {
        lemma_half_of_samples(image@.width, image@.height);
    }
    let gray = grayscale_alpha(image.width(), image.height(), samples);
    lanczos3_resize(image.width(), image.height(), &gray, GRID_SIDE, GRID_SIDE)
}

} // verus!
