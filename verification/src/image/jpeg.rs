//! JPEG header parsing: scans marker segments up to the first start of
//! frame and reads `(width, height, components)` of a baseline (`SOF0`)
//! Gray or RGB image. No pixel decoding: a JPEG is embedded as it is.

use vstd::prelude::*;
use crate::bytes::{be16, read_u16};
use crate::image::ImageError;

verus! {

/// The first index at or after `k` that is not a `0xFF` fill byte (or the
/// end of `b`).
pub open spec fn fill_end(b: Seq<u8>, k: nat) -> nat
    decreases b.len() - k,
{
    if k < b.len() && b[k as int] == 0xFF {
        fill_end(b, k + 1)
    } else {
        k
    }
}

/// Whether `marker` is a start-of-frame marker (`C0`-`CF` but for `C4`,
/// `C8`, `CC`).
pub open spec fn is_sof(marker: u8) -> bool {
    0xC0 <= marker <= 0xCF && marker != 0xC4 && marker != 0xC8 && marker != 0xCC
}

/// Whether `marker` stands alone, without a length field.
pub open spec fn is_standalone(marker: u8) -> bool {
    marker == 0x01 || (0xD0 <= marker <= 0xD9)
}

/// `(width, height, components)` from a baseline frame header's payload.
pub open spec fn sof0_result(p: Seq<u8>) -> Result<(u32, u32, u8), ImageError> {
    if p.len() < 6 {
        Err(ImageError::Malformed)
    } else if p[5] != 1 && p[5] != 3 {
        Err(ImageError::UnsupportedJpeg)
    } else {
        Ok((be16(p, 3) as u32, be16(p, 1) as u32, p[5]))
    }
}

/// The marker scan from index `i` (where a marker's `0xFF` should be).
pub open spec fn jpeg_scan(b: Seq<u8>, i: nat) -> Result<(u32, u32, u8), ImageError>
    decreases b.len() - i,
{
    if i + 1 >= b.len() {
        Err(ImageError::Malformed)
    } else if b[i as int] != 0xFF {
        Err(ImageError::Malformed)
    } else {
        let mp = fill_end(b, i + 1);
        if mp >= b.len() {
            Err(ImageError::Malformed)
        } else {
            let marker = b[mp as int];
            let j = mp + 1;
            if is_standalone(marker) {
                if j > i {
                    jpeg_scan(b, j)
                } else {
                    Err(ImageError::Malformed)
                }
            } else if j + 2 > b.len() {
                Err(ImageError::Malformed)
            } else {
                let len = be16(b, j as int);
                if len < 2 || j + len > b.len() {
                    Err(ImageError::Malformed)
                } else if is_sof(marker) {
                    if marker != 0xC0 {
                        Err(ImageError::UnsupportedJpeg)
                    } else {
                        sof0_result(b.subrange(j + 2 as int, j + len as int))
                    }
                } else if marker == 0xDA {
                    Err(ImageError::Malformed)
                } else if j + len > i {
                    jpeg_scan(b, j + len)
                } else {
                    Err(ImageError::Malformed)
                }
            }
        }
    }
}

/// What parsing a JPEG header gives.
pub open spec fn jpeg_result(b: Seq<u8>) -> Result<(u32, u32, u8), ImageError> {
    if b.len() < 4 || b[0] != 0xFF || b[1] != 0xD8 {
        Err(ImageError::Malformed)
    } else {
        jpeg_scan(b, 2)
    }
}

proof fn lemma_fill_end(b: Seq<u8>, k: nat)
    requires
        k <= b.len(),
    ensures
        k <= fill_end(b, k) <= b.len(),
        forall|x: int| k <= x < fill_end(b, k) ==> b[x] == 0xFF,
        fill_end(b, k) < b.len() ==> b[fill_end(b, k) as int] != 0xFF,
    decreases b.len() - k,
{
    if k < b.len() && b[k as int] == 0xFF {
        lemma_fill_end(b, k + 1);
    }
}

/// Reads the 2-byte big-endian length of the marker segment whose length
/// field starts at `at`, checking it against the bounds of `bytes`. The
/// length counts its own two bytes.
fn read_segment_length(bytes: &[u8], at: usize) -> (r: Result<usize, ImageError>)
    ensures
        match r {
            Ok(len) => at + 2 <= bytes@.len() && len == be16(bytes@, at as int) && len >= 2 && at + len <= bytes@.len(),
            Err(e) => e == ImageError::Malformed && (at + 2 > bytes@.len() || be16(bytes@, at as int) < 2 || at
                + be16(bytes@, at as int) > bytes@.len()),
        },
{
    if at >= bytes.len() || bytes.len() - at < 2 {
        return Err(ImageError::Malformed);
    }
    let length = read_u16(bytes, at) as usize;
    if length < 2 || length > bytes.len() - at {
        return Err(ImageError::Malformed);
    }
    Ok(length)
}

/// Scans forward from `i` for the next marker, skipping `0xFF` fill bytes.
/// Returns the marker byte and the index just after it.
fn next_marker(bytes: &[u8], i: usize) -> (r: Result<(u8, usize), ImageError>)
    requires
        i + 1 < bytes@.len(),
    ensures
        match r {
            Ok((m, j)) => bytes@[i as int] == 0xFF && fill_end(bytes@, (i + 1) as nat) < bytes@.len() && m
                == bytes@[fill_end(bytes@, (i + 1) as nat) as int] && j == fill_end(bytes@, (i + 1) as nat) + 1,
            Err(e) => e == ImageError::Malformed && (bytes@[i as int] != 0xFF || fill_end(bytes@, (i + 1) as nat)
                >= bytes@.len()),
        },
{
    if bytes[i] != 0xFF {
        return Err(ImageError::Malformed);
    }
    let mut marker_pos = i + 1;
    while marker_pos < bytes.len() && bytes[marker_pos] == 0xFF
        invariant
            i + 1 <= marker_pos <= bytes@.len(),
            fill_end(bytes@, (i + 1) as nat) == fill_end(bytes@, marker_pos as nat),
        decreases bytes@.len() - marker_pos,
    {
        marker_pos = marker_pos + 1;
    }
    if marker_pos >= bytes.len() {
        return Err(ImageError::Malformed);
    }
    Ok((bytes[marker_pos], marker_pos + 1))
}

/// `(width, height, components)` from a baseline frame header's payload;
/// 1 (Gray) and 3 (RGB) components are supported, anything else (CMYK) is
/// `UnsupportedJpeg`.
fn parse_sof0_payload(payload: &[u8]) -> (r: Result<(u32, u32, u8), ImageError>)
    ensures
        r == sof0_result(payload@),
{
    if payload.len() < 6 {
        return Err(ImageError::Malformed);
    }
    let height = read_u16(payload, 1) as u32;
    let width = read_u16(payload, 3) as u32;
    let components = payload[5];
    if components != 1 && components != 3 {
        return Err(ImageError::UnsupportedJpeg);
    }
    Ok((width, height, components))
}

/// Parses just enough of a JPEG to validate it and read `(width, height,
/// components)`: markers are scanned up to the first start of frame;
/// baseline `SOF0` is accepted, every other frame type (progressive,
/// lossless, arithmetic-coded, ...) is `UnsupportedJpeg`.
pub fn parse_jpeg(bytes: &[u8]) -> (r: Result<(u32, u32, u8), ImageError>)
    ensures
        r == jpeg_result(bytes@),
{
    if bytes.len() < 4 || bytes[0] != 0xFF || bytes[1] != 0xD8 {
        return Err(ImageError::Malformed);
    }
    let mut i: usize = 2;
    while i < bytes.len() - 1
        invariant
            2 <= i <= bytes@.len(),
            bytes@.len() >= 4,
            jpeg_result(bytes@) == jpeg_scan(bytes@, i as nat),
        decreases bytes@.len() - i,
    {
        let ghost b = bytes@;
        let ghost gi = i as nat;
        proof {
            lemma_fill_end(b, gi + 1);
        }
        let (marker, next_i) = match next_marker(bytes, i) {
            Ok(v) => v,
            Err(e) => return Err(e),
        };
        i = next_i;
        if marker == 0x01 || (0xD0 <= marker && marker <= 0xD9) {
            continue;
        }
        let length = match read_segment_length(bytes, i) {
            Ok(l) => l,
            Err(e) => return Err(e),
        };
        let sof = 0xC0 <= marker && marker <= 0xCF && marker != 0xC4 && marker != 0xC8 && marker != 0xCC;
        if sof {
            if marker != 0xC0 {
                return Err(ImageError::UnsupportedJpeg);
            }
            let payload = &bytes[i + 2..i + length];
            assert(payload@ =~= b.subrange(i + 2, i + length));
            return parse_sof0_payload(payload);
        }
        if marker == 0xDA {
            return Err(ImageError::Malformed);
        }
        i = i + length;
    }
    Err(ImageError::Malformed)
}

} // verus!
