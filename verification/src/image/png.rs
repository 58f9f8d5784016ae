//! PNG header parsing: reads the `IHDR` chunk (always the first chunk
//! after the signature) and accepts non-interlaced 8-bit RGB or RGBA. No
//! pixel decoding here.

use vstd::prelude::*;
use crate::bytes::{be32, read_u32};
use crate::image::ImageError;

verus! {

/// The eight-byte PNG signature.
pub open spec fn png_signature() -> Seq<u8> {
    seq![0x89u8, 0x50u8, 0x4Eu8, 0x47u8, 0x0Du8, 0x0Au8, 0x1Au8, 0x0Au8]
}

/// The chunk type `IHDR`.
pub open spec fn ihdr_tag() -> Seq<u8> {
    seq![73u8, 72u8, 68u8, 82u8]
}

/// What parsing a PNG header gives: `(width, height, components)` with 3
/// components for RGB and 4 for RGBA.
pub open spec fn png_result(b: Seq<u8>) -> Result<(u32, u32, u8), ImageError> {
    if b.len() < 29 || b.subrange(0, 8) != png_signature() {
        Err(ImageError::Malformed)
    } else if b.subrange(12, 16) != ihdr_tag() || be32(b, 8) != 13 {
        Err(ImageError::Malformed)
    } else if be32(b, 16) == 0 || be32(b, 20) == 0 {
        Err(ImageError::Malformed)
    } else if b[28] != 0 || b[24] != 8 {
        Err(ImageError::UnsupportedPng)
    } else if b[25] == 2 {
        Ok((be32(b, 16) as u32, be32(b, 20) as u32, 3u8))
    } else if b[25] == 6 {
        Ok((be32(b, 16) as u32, be32(b, 20) as u32, 4u8))
    } else {
        Err(ImageError::UnsupportedPng)
    }
}

/// Whether `bytes` starts with the PNG signature.
pub fn has_png_signature(bytes: &[u8]) -> (b: bool)
    ensures
        b == (bytes@.len() >= 8 && bytes@.subrange(0, 8) == png_signature()),
{
    let sig: [u8; 8] = [0x89u8, 0x50u8, 0x4Eu8, 0x47u8, 0x0Du8, 0x0Au8, 0x1Au8, 0x0Au8];
    if bytes.len() < 8 {
        return false;
    }
    let mut k: usize = 0;
    while k < 8
        invariant
            k <= 8,
            bytes@.len() >= 8,
            sig@ == png_signature(),
            forall|x: int| 0 <= x < k ==> bytes@[x] == png_signature()[x],
        decreases 8 - k,
    {
        if bytes[k] != sig[k] {
            assert(bytes@.subrange(0, 8)[k as int] != png_signature()[k as int]);
            return false;
        }
        k = k + 1;
    }
    assert(bytes@.subrange(0, 8) =~= png_signature());
    true
}

/// Parses a PNG's `IHDR` chunk and accepts non-interlaced 8-bit RGB or
/// RGBA; other bit depths, palette and grayscale images and interlacing
/// are `UnsupportedPng`.
pub fn parse_png(bytes: &[u8]) -> (r: Result<(u32, u32, u8), ImageError>)
    ensures
        r == png_result(bytes@),
{
    if bytes.len() < 29 || !has_png_signature(bytes) {
        return Err(ImageError::Malformed);
    }
    let chunk_len = read_u32(bytes, 8);
    let is_ihdr = bytes[12] == 73u8 && bytes[13] == 72u8 && bytes[14] == 68u8 && bytes[15] == 82u8;
    if !is_ihdr || chunk_len != 13 {
        if !is_ihdr {
            assert(bytes@.subrange(12, 16) != ihdr_tag()) by {
                if bytes@.subrange(12, 16) == ihdr_tag() {
                    assert(bytes@.subrange(12, 16)[0] == bytes@[12]);
                    assert(bytes@.subrange(12, 16)[1] == bytes@[13]);
                    assert(bytes@.subrange(12, 16)[2] == bytes@[14]);
                    assert(bytes@.subrange(12, 16)[3] == bytes@[15]);
                }
            }
        }
        return Err(ImageError::Malformed);
    }
    assert(bytes@.subrange(12, 16) =~= ihdr_tag());
    let width = read_u32(bytes, 16);
    let height = read_u32(bytes, 20);
    let bit_depth = bytes[24];
    let color_type = bytes[25];
    let interlace = bytes[28];
    if width == 0 || height == 0 {
        return Err(ImageError::Malformed);
    }
    if interlace != 0 || bit_depth != 8 {
        return Err(ImageError::UnsupportedPng);
    }
    if color_type == 2 {
        Ok((width, height, 3))
    } else if color_type == 6 {
        Ok((width, height, 4))
    } else {
        Err(ImageError::UnsupportedPng)
    }
}

} // verus!
