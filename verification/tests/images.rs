use lwpdf::image::{Image, ImageError, ImageFormat};

fn png(width: u32, height: u32, bit_depth: u8, color_type: u8, interlace: u8) -> Vec<u8> {
    let mut b = vec![0x89, 0x50, 0x4E, 0x47, 0x0D, 0x0A, 0x1A, 0x0A];
    b.extend_from_slice(&13u32.to_be_bytes());
    b.extend_from_slice(b"IHDR");
    b.extend_from_slice(&width.to_be_bytes());
    b.extend_from_slice(&height.to_be_bytes());
    b.extend_from_slice(&[bit_depth, color_type, 0, 0, interlace]);
    b.extend_from_slice(&[0, 0, 0, 0]); // CRC, not checked
    b
}

fn jpeg(sof_marker: u8, width: u16, height: u16, components: u8) -> Vec<u8> {
    let mut b = vec![0xFF, 0xD8];
    // APP0 segment, skipped
    b.extend_from_slice(&[0xFF, 0xE0, 0x00, 0x04, 0x4A, 0x46]);
    // fill bytes before the frame marker are legal
    b.extend_from_slice(&[0xFF, 0xFF, sof_marker, 0x00, 0x0B, 0x08]);
    b.extend_from_slice(&height.to_be_bytes());
    b.extend_from_slice(&width.to_be_bytes());
    b.extend_from_slice(&[components, 0x01, 0x11, 0x00]);
    b.extend_from_slice(&[0xFF, 0xD9]);
    b
}

#[test]
fn mod_accepts_rgba_png_with_transparency() {
    let img = Image::new(png(64, 48, 8, 6, 0)).unwrap();
    assert_eq!(img.format, ImageFormat::Png);
    assert_eq!(img.components, 4);
    assert_eq!((img.width_px, img.height_px), (64, 48));
}

#[test]
fn mod_accepts_opaque_rgb_png() {
    let img = Image::new(png(40, 30, 8, 2, 0)).unwrap();
    assert_eq!(img.components, 3);
    assert_eq!((img.width_px, img.height_px), (40, 30));
}

#[test]
fn mod_accepts_baseline_rgb_jpeg() {
    let img = Image::new(jpeg(0xC0, 80, 60, 3)).unwrap();
    assert_eq!(img.format, ImageFormat::Jpeg);
    assert_eq!(img.components, 3);
    assert_eq!((img.width_px, img.height_px), (80, 60));
}

#[test]
fn mod_accepts_baseline_gray_jpeg() {
    let img = Image::new(jpeg(0xC0, 32, 32, 1)).unwrap();
    assert_eq!(img.components, 1);
    assert_eq!((img.width_px, img.height_px), (32, 32));
}

#[test]
fn mod_rejects_progressive_jpeg() {
    assert_eq!(Image::new(jpeg(0xC2, 10, 10, 3)).unwrap_err(), ImageError::UnsupportedJpeg);
}

#[test]
fn mod_rejects_cmyk_jpeg() {
    assert_eq!(Image::new(jpeg(0xC0, 10, 10, 4)).unwrap_err(), ImageError::UnsupportedJpeg);
}

#[test]
fn rejects_jpeg_whose_scan_starts_before_a_frame() {
    let b = vec![0xFF, 0xD8, 0xFF, 0xDA, 0x00, 0x02, 0x00];
    assert_eq!(Image::new(b).unwrap_err(), ImageError::Malformed);
}

#[test]
fn rejects_truncated_jpeg_segment() {
    let b = vec![0xFF, 0xD8, 0xFF, 0xE0, 0x00, 0x40, 0x00];
    assert_eq!(Image::new(b).unwrap_err(), ImageError::Malformed);
}

#[test]
fn mod_rejects_palette_png() {
    assert_eq!(Image::new(png(4, 4, 8, 3, 0)).unwrap_err(), ImageError::UnsupportedPng);
}

#[test]
fn mod_rejects_sixteen_bit_png() {
    assert_eq!(Image::new(png(4, 4, 16, 2, 0)).unwrap_err(), ImageError::UnsupportedPng);
}

#[test]
fn mod_rejects_interlaced_png() {
    let mut bytes = png(40, 30, 8, 2, 0);
    assert_eq!(&bytes[12..16], b"IHDR");
    bytes[16 + 12] = 1;
    assert_eq!(Image::new(bytes).unwrap_err(), ImageError::UnsupportedPng);
}

#[test]
fn rejects_zero_sized_png() {
    assert_eq!(Image::new(png(0, 4, 8, 2, 0)).unwrap_err(), ImageError::Malformed);
}

#[test]
fn mod_rejects_garbage_bytes() {
    assert_eq!(Image::new(vec![0u8; 16]).unwrap_err(), ImageError::UnsupportedFormat);
}

#[test]
fn mod_rejects_oversized_declared_dimensions() {
    let mut bytes = png(40, 30, 8, 2, 0);
    bytes[16..20].copy_from_slice(&10_000u32.to_be_bytes());
    bytes[20..24].copy_from_slice(&10_000u32.to_be_bytes());
    assert_eq!(Image::new(bytes).unwrap_err(), ImageError::ImageTooLarge);
}

#[test]
fn accepts_exactly_the_pixel_limit() {
    assert!(Image::new(png(8000, 5000, 8, 2, 0)).is_ok());
    assert_eq!(Image::new(png(8000, 5001, 8, 2, 0)).unwrap_err(), ImageError::ImageTooLarge);
}

#[test]
fn keeps_the_original_bytes() {
    let bytes = jpeg(0xC0, 3, 2, 3);
    let img = Image::new(bytes.clone()).unwrap();
    assert_eq!(img.bytes, bytes);
}
