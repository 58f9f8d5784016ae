//! Images: JPEG and PNG header validation. Only header bytes are parsed;
//! a supported image is later embedded without re-encoding.

pub mod jpeg;
pub mod png;

use vstd::prelude::*;
use crate::image::jpeg::{jpeg_result, parse_jpeg};
use crate::image::png::{has_png_signature, parse_png, png_result, png_signature};

verus! {

/// The largest supported declared pixel count (about 6300 by 6300).
pub const MAX_PIXELS: u64 = 40_000_000;

#[derive(Clone, Copy, PartialEq, Eq, Debug)]
pub enum ImageFormat {
    Jpeg,
    Png,
}

#[derive(Clone, Copy, PartialEq, Eq, Debug)]
pub enum ImageError {
    /// Not a JPEG or PNG (bad magic bytes).
    UnsupportedFormat,
    /// Truncated or structurally broken header.
    Malformed,
    /// Not baseline, or not Gray/RGB (progressive, CMYK, ...).
    UnsupportedJpeg,
    /// Not non-interlaced 8-bit RGB/RGBA (palette, 16-bit, interlaced, ...).
    UnsupportedPng,
    /// Declared pixel count exceeds `MAX_PIXELS`.
    ImageTooLarge,
}

impl ImageError {
    /// The error's message.
    pub fn message(&self) -> (s: &'static str)
        ensures
            s@ == match *self {
                ImageError::UnsupportedFormat => "unsupported image format (need JPEG or PNG)"@,
                ImageError::Malformed => "malformed image header"@,
                ImageError::UnsupportedJpeg => "unsupported JPEG variant (need baseline Gray/RGB)"@,
                ImageError::UnsupportedPng => "unsupported PNG variant (need non-interlaced 8-bit RGB/RGBA)"@,
                ImageError::ImageTooLarge => "image pixel count exceeds the supported limit"@,
            },
    {
        match self {
            ImageError::UnsupportedFormat => "unsupported image format (need JPEG or PNG)",
            ImageError::Malformed => "malformed image header",
            ImageError::UnsupportedJpeg => "unsupported JPEG variant (need baseline Gray/RGB)",
            ImageError::UnsupportedPng => "unsupported PNG variant (need non-interlaced 8-bit RGB/RGBA)",
            ImageError::ImageTooLarge => "image pixel count exceeds the supported limit",
        }
    }
}

/// What validating `b` gives: its format, width, height and components
/// (1 Gray, 3 RGB, 4 RGBA), or why it is refused.
pub open spec fn image_result(b: Seq<u8>) -> Result<(ImageFormat, u32, u32, u8), ImageError> {
    let parsed = if b.len() >= 2 && b[0] == 0xFF && b[1] == 0xD8 {
        match jpeg_result(b) {
            Ok((w, h, c)) => Ok((ImageFormat::Jpeg, w, h, c)),
            Err(e) => Err(e),
        }
    } else if b.len() >= 8 && b.subrange(0, 8) == png_signature() {
        match png_result(b) {
            Ok((w, h, c)) => Ok((ImageFormat::Png, w, h, c)),
            Err(e) => Err(e),
        }
    } else {
        Err(ImageError::UnsupportedFormat)
    };
    match parsed {
        Ok((f, w, h, c)) => if (w as nat) * (h as nat) > MAX_PIXELS {
            Err(ImageError::ImageTooLarge)
        } else {
            Ok((f, w, h, c))
        },
        Err(e) => Err(e),
    }
}

/// A validated, embeddable JPEG or PNG: the original file bytes and the
/// header facts layout needs.
#[derive(Clone, Debug)]
pub struct Image {
    pub bytes: Vec<u8>,
    pub format: ImageFormat,
    pub width_px: u32,
    pub height_px: u32,
    /// 1 = Gray, 3 = RGB, 4 = RGBA (JPEG is always 1 or 3, never 4).
    pub components: u8,
}

impl Image {
    /// Validates `bytes` as a supported JPEG or PNG and reads its
    /// dimensions and color components; anything outside that scope is
    /// refused with the reason.
    pub fn new(bytes: Vec<u8>) -> (r: Result<Image, ImageError>)
        ensures
            match image_result(bytes@) {
                Ok((f, w, h, c)) => r matches Ok(img) && img.bytes@ == bytes@ && img.format == f && img.width_px == w
                    && img.height_px == h && img.components == c,
                Err(e) => r matches Err(x) && x == e,
            },
    {
        let (format, width_px, height_px, components) = if bytes.len() >= 2 && bytes[0] == 0xFF && bytes[1]
            == 0xD8 {
            match parse_jpeg(bytes.as_slice()) {
                Ok((w, h, c)) => (ImageFormat::Jpeg, w, h, c),
                Err(e) => return Err(e),
            }
        } else if has_png_signature(bytes.as_slice()) {
            match parse_png(bytes.as_slice()) {
                Ok((w, h, c)) => (ImageFormat::Png, w, h, c),
                Err(e) => return Err(e),
            }
        } else {
            return Err(ImageError::UnsupportedFormat);
        };
        let w64 = width_px as u64;
        let h64 = height_px as u64;
        assert(w64 * h64 <= 0xFFFF_FFFF * 0xFFFF_FFFF) by (nonlinear_arith)
            requires
                w64 <= 0xFFFF_FFFF,
                h64 <= 0xFFFF_FFFF,
        ;
        if w64 * h64 > MAX_PIXELS {
            return Err(ImageError::ImageTooLarge);
        }
        Ok(Image { bytes, format, width_px, height_px, components })
    }
}

} // verus!
