//! Trusted boundary to the outside codec crates: JPEG encoding and
//! recompression through `image`, and text encoding of emitted frames
//! through `base64`.
//!
//! Each outside call sits behind one wrapper whose contract names its
//! result; everything around the calls is verified.

use vstd::prelude::*;

verus! {

/// The JPEG bitstream produced by the `image` crate's baseline JPEG encoder
/// for the given packed `Rgb8` pixel buffer, dimensions and quality setting.
pub uninterp spec fn jpeg_of(rgb: Seq<u8>, width: u32, height: u32, quality: u8) -> Seq<u8>;

/// Relies on `image::codecs::jpeg::JpegEncoder::{new_with_quality, encode}`
/// writing into an in-memory cursor: the encoded bytes depend only on the
/// pixel bytes, the dimensions and the quality setting.  `encode` panics
/// unless the buffer holds exactly `3 * width * height` bytes for `Rgb8`
/// (excluded here by `requires`), returns an `InvalidSize` error exactly
/// when a dimension is zero or above 65535 (the JPEG limit), and otherwise
/// only writes to the cursor, which cannot fail.
#[verifier::external_body]
pub(crate) fn jpeg_encode_rgb(rgb: &[u8], width: u32, height: u32, quality: u8) -> (r: Result<
    Vec<u8>,
    String,
>)
    requires
        rgb@.len() == 3 * width * height,
    ensures
        r matches Ok(v) ==> v@ == jpeg_of(rgb@, width, height, quality),
        (r is Ok) == (1 <= width <= 65535 && 1 <= height <= 65535),
{
    let mut buffer = std::io::Cursor::new(Vec::new());
    let mut encoder = image::codecs::jpeg::JpegEncoder::new_with_quality(&mut buffer, quality);
    match encoder.encode(rgb, width, height, image::ExtendedColorType::Rgb8) {
        Ok(()) => Ok(buffer.into_inner()),
        Err(e) => Err(format!("JPEG encoding failed: {}", e)),
    }
}

/// The bytes produced by decoding `data` with the `image` crate's
/// format-guessing reader and re-encoding the pixels as JPEG at the given
/// quality.
pub uninterp spec fn recompress_of(data: Seq<u8>, quality: u8) -> Seq<u8>;

/// Relies on `image::ImageReader::{new, with_guessed_format, decode}` over
/// an in-memory cursor and on `image::codecs::jpeg::JpegEncoder::encode`
/// re-encoding the decoded pixels: both are deterministic in the input
/// bytes, so the result depends only on `data` and `quality`.  Decoding
/// fails on bytes that are not a supported image; re-encoding fails on
/// unsupported layouts or out-of-range dimensions; `DynamicImage::as_bytes`
/// always matches the image's own dimensions, so `encode` cannot panic.
#[verifier::external_body]
pub(crate) fn recompress_jpeg(data: &[u8], quality: u8) -> (r: Result<Vec<u8>, String>)
    ensures
        r matches Ok(v) ==> v@ == recompress_of(data@, quality),
{
    let img = image::ImageReader::new(std::io::Cursor::new(data)).with_guessed_format().map_err(
        |e| format!("{}", e),
    )?.decode().map_err(|e| format!("{}", e))?;
    let mut buffer = std::io::Cursor::new(Vec::new());
    let mut encoder = image::codecs::jpeg::JpegEncoder::new_with_quality(&mut buffer, quality);
    encoder.encode(img.as_bytes(), img.width(), img.height(), img.color().into()).map_err(
        |e| format!("{}", e),
    )?;
    Ok(buffer.into_inner())
}

/// The text that the `base64` crate's standard alphabet, with padding,
/// produces for the given bytes.
pub uninterp spec fn base64_of(b: Seq<u8>) -> Seq<char>;

/// Relies on `base64::Engine::encode` with
/// `base64::engine::general_purpose::STANDARD`: the output is a pure
/// function of the input bytes, four characters for every started group of
/// three input bytes.
#[verifier::external_body]
fn base64_encode(b: &[u8]) -> (r: String)
    ensures
        r@ == base64_of(b@),
        r@.len() == 4 * ((b@.len() + 2) / 3),
{
    base64::Engine::encode(&base64::engine::general_purpose::STANDARD, b)
}

/// Renders a reconstructed frame payload as the text form in which it is
/// handed to the consumer.
pub fn encode_frame_event(frame: &[u8]) -> (r: String)
    ensures
        r@ == base64_of(frame@),
        r@.len() == 4 * ((frame@.len() + 2) / 3),
{
    base64_encode(frame)
}

} // verus!
