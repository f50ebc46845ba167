//! Trusted boundary to the raster codec: decoding bytes into an RGBA pixel
//! grid and encoding a grid back to PNG bytes.  The decode body pins the
//! image format from the static magic-byte table and then decodes with that
//! explicit format, a path that never consults the codec's process-global
//! hook registry — so both calls are pure functions of their inputs, and
//! their results (and whether they succeed at all) carry names that the
//! rest of the library's contracts compose over.

use vstd::prelude::*;

verus! {

/// Whether the codec decodes these bytes at all.
pub uninterp spec fn spec_decode_ok(input: Seq<u8>) -> bool;

/// The pixel width of the image the codec decodes from these bytes.
pub uninterp spec fn spec_decoded_width(input: Seq<u8>) -> int;

/// The pixel height of the image the codec decodes from these bytes.
pub uninterp spec fn spec_decoded_height(input: Seq<u8>) -> int;

/// The row-major RGBA bytes the codec decodes from these bytes.
pub uninterp spec fn spec_decoded_rgba(input: Seq<u8>) -> Seq<u8>;

/// Whether the codec encodes a grid of these dimensions and bytes as PNG.
pub uninterp spec fn spec_encode_ok(width: int, height: int, data: Seq<u8>) -> bool;

/// The PNG encoding of a row-major RGBA pixel grid.
pub uninterp spec fn spec_png_encode(width: int, height: int, data: Seq<u8>) -> Seq<u8>;

/// Relies on `image::guess_format` (which reads only the static magic-byte
/// table), `image::load_from_memory_with_format` (whose explicit-format
/// path never consults the hook registry) and `DynamicImage::to_rgba8`:
/// with the format pinned this way, whether decoding succeeds and what it
/// yields are functions of the input bytes alone, and the RGBA buffer holds
/// exactly four bytes per pixel, row-major.
#[verifier::external_body]
pub fn decode_rgba(input: &Vec<u8>) -> (r: Result<(u32, u32, Vec<u8>), String>)
    ensures
        r is Ok <==> spec_decode_ok(input@),
        match r {
            Ok(t) => t.0 as int == spec_decoded_width(input@) && t.1 as int == spec_decoded_height(
                input@,
            ) && t.2@ == spec_decoded_rgba(input@) && t.2@.len() == 4 * t.0 * t.1,
            Err(_) => true,
        },
{
    let format = match image::guess_format(input) {
        Ok(f) => f,
        Err(e) => {
            return Err(format!("Failed to load image: {}", e));
        },
    };
    match image::load_from_memory_with_format(input, format) {
        Ok(img) => {
            let rgba = img.to_rgba8();
            let (w, h) = rgba.dimensions();
            Ok((w, h, rgba.into_raw()))
        },
        Err(e) => Err(format!("Failed to load image: {}", e)),
    }
}

/// Relies on `ImageBuffer::from_raw` and `write_to` with the PNG format:
/// the encode path consults no hooks and its settings are fixed, so whether
/// encoding succeeds and what it yields are functions of the dimensions and
/// the pixel bytes alone.
#[verifier::external_body]
pub fn encode_png(width: u32, height: u32, data: &Vec<u8>) -> (r: Result<Vec<u8>, String>)
    requires
        data@.len() == 4 * width * height,
    ensures
        r is Ok <==> spec_encode_ok(width as int, height as int, data@),
        match r {
            Ok(b) => b@ == spec_png_encode(width as int, height as int, data@),
            Err(_) => true,
        },
{
    let mut out = std::io::Cursor::new(Vec::new());
    let buf: Option<image::ImageBuffer<image::Rgba<u8>, Vec<u8>>> =
        image::ImageBuffer::from_raw(width, height, data.clone());
    match buf {
        Some(b) => match b.write_to(&mut out, image::ImageFormat::Png) {
            Ok(()) => Ok(out.into_inner()),
            Err(e) => Err(format!("Failed to write output image: {}", e)),
        },
        None => Err(format!("pixel buffer does not match the dimensions")),
    }
}

} // verus!
