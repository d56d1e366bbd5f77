//! The one call into the `image` crate: halving an image with the Lanczos
//! filter.
use vstd::prelude::*;

verus! {

/// Halves an RGBA image with the Lanczos filter of window 3, by a call of
/// `image::DynamicImage::resize` on the buffer as an 8-bit RGBA image.
///
/// Taken on trust: for an image of `2 * nwidth` by `2 * nheight` pixels the
/// call keeps the aspect ratio at exactly one half, so what comes back holds
/// four bytes for each of `nwidth * nheight` pixels. Nothing is claimed of the
/// pixel values: the filter works in floating point, with or without fused
/// multiply-add as the target has it. The call is kept from empty images and
/// from sizes whose intermediate buffer of 32-bit floats, `2 * nwidth` by
/// `nheight` pixels of 16 bytes, would be larger than an allocation may be.
#[verifier::external_body]
pub(crate) fn lanczos3_halve(
    data: Vec<u8>,
    width: u32,
    height: u32,
    nwidth: u32,
    nheight: u32,
) -> (out: Vec<u8>)
    requires
        data@.len() == 4 * (width * height),
        nwidth > 0,
        nheight > 0,
        width == 2 * nwidth,
        height == 2 * nheight,
        32 * (nwidth * nheight) <= isize::MAX,
    ensures
        out@.len() == 4 * (nwidth * nheight),
{
    let buffer = image::RgbaImage::from_raw(width, height, data).unwrap();
    let resized = image::DynamicImage::ImageRgba8(buffer).resize(
        nwidth,
        nheight,
        image::imageops::FilterType::Lanczos3,
    );
    resized.into_rgba8().into_raw()
}

} // verus!
