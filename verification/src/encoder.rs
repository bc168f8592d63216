//! Frame encoders.  The software JPEG path converts captured `Rgba8`
//! pixels to `Rgb8` (verified) and hands them to the outside JPEG encoder
//! (trusted, see [`crate::codec`]).  Hardware encoders are modelled but
//! unavailable in this build; the factory deterministically falls back to
//! the software path.

use vstd::prelude::*;
use crate::capture::rgb_of;
use crate::capture::rgba_to_rgb;
use crate::codec::jpeg_of;

verus! {

/// The kind of encoder driving a streaming session.
#[derive(Debug, Clone, Copy, PartialEq, Eq, Structural)]
pub enum EncoderType {
    /// Per-frame software JPEG.
    Software,
    /// Hardware H.264 (NVENC, QuickSync, AMF, VideoToolbox).
    HardwareH264,
    /// Hardware HEVC.
    HardwareH265,
}

/// Parameters a streaming session fixes for its encoder.
pub struct EncoderConfig {
    /// Frame width in pixels.
    pub width: usize,
    /// Frame height in pixels.
    pub height: usize,
    /// Advisory frame rate hint.
    pub fps: u32,
    /// Advisory bitrate hint in bits per second; unused by JPEG.
    pub bitrate: u32,
    /// Which encoder to drive.
    pub encoder_type: EncoderType,
    /// JPEG quality (1-100), or CRF for H.264.
    pub quality: u8,
}

/// The encode capability a streaming session needs from any encoder
/// backend.  Bitrate and frame-rate hints are advisory and must not fail
/// the pipeline when unsupported.
pub trait VideoEncoder {
    /// Compresses one packed `Rgba8` frame into a self-contained payload.
    fn encode(&mut self, rgba: &[u8]) -> Result<Vec<u8>, String>;

    /// The kind of encoder this is.
    fn encoder_type(&self) -> EncoderType;

    /// Advisory bitrate hint.
    fn set_bitrate(&mut self, bitrate: u32) -> Result<(), String>;

    /// Advisory frame-rate hint.
    fn set_fps(&mut self, fps: u32) -> Result<(), String>;
}

/// Software JPEG encoder.
pub struct JpegEncoder {
    /// JPEG quality, 1-100.
    pub quality: u8,
    /// Expected frame width in pixels.
    pub width: usize,
    /// Expected frame height in pixels.
    pub height: usize,
}

impl JpegEncoder {
    pub fn new(config: &EncoderConfig) -> (r: Result<Self, String>)
        ensures
            r matches Ok(e) && e == (JpegEncoder {
                quality: config.quality,
                width: config.width,
                height: config.height,
            }),
    {
        Ok(JpegEncoder { quality: config.quality, width: config.width, height: config.height })
    }

    /// Encodes one packed `Rgba8` frame of the configured dimensions as
    /// JPEG.  Succeeds exactly when the buffer holds one byte quadruple
    /// per configured pixel and both dimensions are in the JPEG-legal
    /// range 1 to 65535.
    pub fn encode_rgba(&self, rgba: &[u8]) -> (r: Result<Vec<u8>, String>)
        ensures
            (r is Ok) == (rgba@.len() / 4 == self.width * self.height && 1 <= self.width <= 65535
                && 1 <= self.height <= 65535),
            r matches Ok(v) ==> v@ == jpeg_of(
                rgb_of(rgba@),
                self.width as u32,
                self.height as u32,
                self.quality,
            ),
    {
        let pixels = rgba.len() / 4;
        if self.width == 0 || self.width > 65535 || self.height == 0 || self.height > 65535 {
            proof {
                assert(!(1 <= self.width <= 65535 && 1 <= self.height <= 65535));
            }
            return Err("frame dimensions outside the JPEG-legal range".to_string());
        }
        proof {
            assert((self.width as int) * (self.height as int) <= 65535 * 65535)
                by (nonlinear_arith)
                requires
                    1 <= self.width <= 65535 && 1 <= self.height <= 65535,
            ;
        }
        if pixels != self.width * self.height {
            return Err("frame buffer does not match the configured dimensions".to_string());
        }
        let rgb = rgba_to_rgb(rgba);
        proof {
            assert(3 * ((self.width as int) * (self.height as int)) == 3 * (self.width as int) * (
            self.height as int)) by (nonlinear_arith);
            assert(rgb@.len() == 3 * (self.width as int) * (self.height as int));
        }
        crate::codec::jpeg_encode_rgb(
            rgb.as_slice(),
            self.width as u32,
            self.height as u32,
            self.quality,
        )
    }
}

impl VideoEncoder for JpegEncoder {
    fn encode(&mut self, rgba: &[u8]) -> Result<Vec<u8>, String> {
        self.encode_rgba(rgba)
    }

    fn encoder_type(&self) -> EncoderType {
        EncoderType::Software
    }

    fn set_bitrate(&mut self, _bitrate: u32) -> Result<(), String> {
        Ok(())
    }

    fn set_fps(&mut self, _fps: u32) -> Result<(), String> {
        Ok(())
    }
}

/// Hardware H.264 encoder; no platform backend is wired up in this build,
/// so it can never be constructed.
pub struct H264HardwareEncoder {
    /// Frame width in pixels.
    pub width: usize,
    /// Frame height in pixels.
    pub height: usize,
    /// Bitrate in bits per second.
    pub bitrate: u32,
    /// Frame rate the encoder is tuned for.
    pub fps: u32,
}

impl H264HardwareEncoder {
    /// Whether any hardware H.264 backend (NVENC, QuickSync, AMF,
    /// VideoToolbox, VAAPI) is available; none is wired up in this build.
    pub fn is_available() -> (r: bool)
        ensures
            !r,
    {
        false
    }

    pub fn new(_config: &EncoderConfig) -> (r: Result<Self, String>)
        ensures
            r is Err,
    {
        if !Self::is_available() {
            return Err("Hardware H264 encoder not available".to_string());
        }
        Err("Hardware H264 encoder not available".to_string())
    }
}

impl VideoEncoder for H264HardwareEncoder {
    fn encode(&mut self, _rgba: &[u8]) -> Result<Vec<u8>, String> {
        Err("Hardware H264 encoding not available".to_string())
    }

    fn encoder_type(&self) -> EncoderType {
        EncoderType::HardwareH264
    }

    fn set_bitrate(&mut self, bitrate: u32) -> Result<(), String> {
        self.bitrate = bitrate;
        Ok(())
    }

    fn set_fps(&mut self, fps: u32) -> Result<(), String> {
        self.fps = fps;
        Ok(())
    }
}

/// Builds the encoder for a session.  Hardware encoding is not compiled
/// in, so every configuration deterministically yields the software JPEG
/// encoder with the requested dimensions and quality.
pub fn create_encoder(config: EncoderConfig) -> (r: Result<JpegEncoder, String>)
    ensures
        r matches Ok(e) && e == (JpegEncoder {
            quality: config.quality,
            width: config.width,
            height: config.height,
        }),
{
    match config.encoder_type {
        EncoderType::Software => JpegEncoder::new(&config),
        EncoderType::HardwareH264 | EncoderType::HardwareH265 => {
            let jpeg_config = EncoderConfig { encoder_type: EncoderType::Software, ..config };
            JpegEncoder::new(&jpeg_config)
        },
    }
}

/// Probes once for the best available encoder.  No hardware backend is
/// available in this build, so the result is always the software JPEG
/// configuration at quality 70.
pub fn auto_detect_encoder(width: usize, height: usize, fps: u32) -> (r: EncoderConfig)
    ensures
        r.width == width,
        r.height == height,
        r.fps == fps,
        r.bitrate == 0,
        r.encoder_type == EncoderType::Software,
        r.quality == 70,
{
    EncoderConfig {
        width,
        height,
        fps,
        bitrate: 0,
        encoder_type: EncoderType::Software,
        quality: 70,
    }
}

/// An H.264 bitrate suited to the pixel rate: 0.15 bits per pixel,
/// saturating at `u32::MAX`.
pub fn calculate_bitrate(width: usize, height: usize, fps: u32) -> (r: u32)
    requires
        width * height * fps * 3 <= u64::MAX,
    ensures
        r == (if width * height * fps * 3 / 20 <= u32::MAX {
            width * height * fps * 3 / 20
        } else {
            u32::MAX as int
        }),
{
    if fps == 0 {
        return 0;
    }
    proof {
        let wi = width as int;
        let hi = height as int;
        let fi = fps as int;
        assert(wi * hi >= 0 && wi * hi * fi >= 0 && wi * hi <= wi * hi * fi) by (nonlinear_arith)
            requires
                wi >= 0 && hi >= 0 && fi >= 1,
        ;
    }
    let pixels = (width as u64) * (height as u64);
    let pps = pixels * (fps as u64);
    let scaled = pps * 3 / 20;
    if scaled <= u32::MAX as u64 {
        scaled as u32
    } else {
        u32::MAX
    }
}

} // verus!
