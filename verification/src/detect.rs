//! Trusted interface to the external QR detector.
//!
//! The detector is a black box that takes a greyscale raster and reports
//! the symbols it finds.  Whether it finds one, and what it decodes,
//! depends on its internal image analysis, so nothing is promised about
//! its results: the verified verdict logic takes them as arguments.

use vstd::prelude::*;

verus! {

/// The luminance of the pixel at (x, y) in a row-major raster of width
/// `w` and height `h`; white outside the raster.
pub(crate) fn luma_at(pixels: &Vec<u8>, w: usize, h: usize, x: usize, y: usize) -> (r: u8)
    requires
        w <= 10000,
        h <= 10000,
        pixels@.len() == w * h,
    ensures
        x < w && y < h ==> r == pixels@[y * w + x],
        !(x < w && y < h) ==> r == 255,
{
    let n: usize = pixels.len();
    if x < w && y < h {
        proof {
            vstd::arithmetic::mul::lemma_mul_inequality(y as int, h as int - 1, w as int);
            vstd::arithmetic::mul::lemma_mul_is_distributive_sub(w as int, h as int, 1);
            vstd::arithmetic::mul::lemma_mul_is_commutative(w as int, h as int - 1);
            vstd::arithmetic::mul::lemma_mul_is_commutative(w as int, h as int);
            assert(y as int * (w as int) <= (h as int - 1) * (w as int));
            assert((h as int - 1) * (w as int) == (h as int) * (w as int) - w as int);
            assert((y as int * (w as int) + x as int) < n as int);
        }
        pixels[y * w + x]
    } else {
        255
    }
}

/// Relies on rqrr::PreparedImage::prepare_from_greyscale,
/// PreparedImage::detect_grids and rqrr::Grid::decode: locate the first QR
/// symbol in the raster and decode its text, as UTF-8 bytes.  None when no
/// symbol is found or decoding fails.
#[verifier::external_body]
pub(crate) fn detect_decode(pixels: &Vec<u8>, w: usize, h: usize) -> (r: Option<Vec<u8>>)
    requires
        w <= 10000,
        h <= 10000,
        pixels@.len() == w * h,
{
    let mut img = rqrr::PreparedImage::prepare_from_greyscale(w, h, |x, y| luma_at(
        pixels, w, h, x, y,
    ));
    let grids = img.detect_grids();
    match grids.first() {
        None => None,
        Some(g) => match g.decode() {
            Ok((_, content)) => Some(content.into_bytes()),
            Err(_) => None,
        },
    }
}

/// Relies on rqrr::PreparedImage::prepare_from_greyscale,
/// PreparedImage::detect_grids and rqrr::Grid::get_raw_data: locate the
/// first QR symbol in the raster and return its raw bit stream, as the
/// bits appear in the image.  None when no symbol is found or reading
/// fails.
#[verifier::external_body]
pub(crate) fn detect_raw(pixels: &Vec<u8>, w: usize, h: usize) -> (r: Option<Vec<u8>>)
    requires
        w <= 10000,
        h <= 10000,
        pixels@.len() == w * h,
{
    let mut img = rqrr::PreparedImage::prepare_from_greyscale(w, h, |x, y| luma_at(
        pixels, w, h, x, y,
    ));
    let grids = img.detect_grids();
    match grids.first() {
        None => None,
        Some(g) => match g.get_raw_data() {
            Ok((_, raw)) => Some(raw.data.to_vec()),
            Err(_) => None,
        },
    }
}

} // verus!
