//! Decoding the images placed under the drawing: the bytes of an image file become RGBA
//! pixels, scaled down when a side is longer than a texture may be.
use vstd::prelude::*;

verus! {

/// The width and height of the image that `bytes` encode, if they encode one that the
/// `image` crate reads.
pub uninterp spec fn image_size(bytes: Seq<u8>) -> Option<(u32, u32)>;

/// The pixels of the image that `bytes` encode, resampled to `width` by `height` with a
/// triangle filter, four bytes per pixel (red, green, blue, alpha), row by row.
pub uninterp spec fn image_rgba(bytes: Seq<u8>, width: u32, height: u32) -> Seq<u8>;

/// The size that an image of `width` by `height` takes when it is fitted inside a square
/// of side `side`, its aspect ratio kept (the `image` crate's rule, in floating point).
pub uninterp spec fn fitted_size(width: u32, height: u32, side: u32) -> (u32, u32);

/// Decodes `bytes` with `image::load_from_memory` and converts the image with
/// `DynamicImage::to_rgba8`: its size and its pixels at that size, or nothing when the
/// bytes are not an image the crate reads. The contract names both results.
#[verifier::external_body]
fn natural_image(bytes: &[u8]) -> (image: Option<(u32, u32, Vec<u8>)>)
    ensures
        match image {
            None => image_size(bytes@) is None,
            Some((width, height, pixels)) => image_size(bytes@) == Some((width, height))
                && pixels@ == image_rgba(bytes@, width, height),
        },
{
    match image::load_from_memory(bytes) {
        Ok(decoded) => {
            let rgba = decoded.to_rgba8();
            Some((rgba.width(), rgba.height(), rgba.into_raw()))
        },
        Err(_) => None,
    }
}

/// Decodes `bytes` with `image::load_from_memory`, scales the image with
/// `DynamicImage::resize` to fit a square of side `side` (triangle filter), and converts
/// it with `to_rgba8`. The contract claims that the result exists exactly when the bytes
/// decode, that its size is the fitted size of the decoded one, and that its pixels are
/// the decoded image resampled to that size; the fitted size itself is only named.
#[verifier::external_body]
fn fitted_image(bytes: &[u8], side: u32) -> (image: Option<(u32, u32, Vec<u8>)>)
    ensures
        match image {
            None => image_size(bytes@) is None,
            Some((width, height, pixels)) => match image_size(bytes@) {
                Some((w, h)) => (width, height) == fitted_size(w, h, side) && pixels@ == image_rgba(bytes@, width, height),
                None => false,
            },
        },
{
    match image::load_from_memory(bytes) {
        Ok(decoded) => {
            let rgba = decoded.resize(side, side, image::imageops::FilterType::Triangle).to_rgba8();
            Some((rgba.width(), rgba.height(), rgba.into_raw()))
        },
        Err(_) => None,
    }
}

/// The image that `bytes` encode, as its width, height and RGBA pixels: at its own size
/// when neither side is longer than `max_side`, else fitted inside a square of side
/// `max_side`. Nothing when the bytes are not an image.
pub fn decode(bytes: &[u8], max_side: u32) -> (image: Option<(u32, u32, Vec<u8>)>)
    ensures
        image is None <==> image_size(bytes@) is None,
        match image {
            None => true,
            Some((width, height, pixels)) => match image_size(bytes@) {
                Some((w, h)) => {
                    &&& if w <= max_side && h <= max_side {
                        width == w && height == h
                    } else {
                        (width, height) == fitted_size(w, h, max_side)
                    }
                    &&& pixels@ == image_rgba(bytes@, width, height)
                },
                None => false,
            },
        },
{
    let natural = natural_image(bytes);
    match natural {
        None => None,
        Some((width, height, pixels)) => {
            if width <= max_side && height <= max_side {
                Some((width, height, pixels))
            } else {
                fitted_image(bytes, max_side)
            }
        },
    }
}

} // verus!
