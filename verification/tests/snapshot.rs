use lwpdf::snapshot::{compare_page, decode_to_gray, reference_file_name, PageComparison, SnapshotError};

fn encode(width: u32, height: u32, color: png::ColorType, depth: png::BitDepth, data: &[u8]) -> Vec<u8> {
    let mut out = Vec::new();
    {
        let mut encoder = png::Encoder::new(&mut out, width, height);
        encoder.set_color(color);
        encoder.set_depth(depth);
        let mut writer = encoder.write_header().unwrap();
        writer.write_image_data(data).unwrap();
    }
    out
}

fn gray(width: u32, height: u32, data: &[u8]) -> Vec<u8> {
    encode(width, height, png::ColorType::Grayscale, png::BitDepth::Eight, data)
}

#[test]
fn rgb_pages_are_reduced_to_their_first_channel() {
    let png = encode(2, 1, png::ColorType::Rgb, png::BitDepth::Eight, &[10, 10, 10, 200, 200, 200]);
    let g = decode_to_gray(&png).unwrap();
    assert_eq!((g.width, g.height), (2, 1));
    assert_eq!(g.pixels, vec![10, 200]);
}

#[test]
fn sixteen_bit_pages_are_refused() {
    let png = encode(1, 1, png::ColorType::Grayscale, png::BitDepth::Sixteen, &[0, 0]);
    match decode_to_gray(&png) {
        Err(SnapshotError::Decode(m)) => assert_eq!(m, "expected an 8-bit PNG, got Sixteen"),
        other => panic!("unexpected: {:?}", other.map(|g| g.pixels)),
    }
}

#[test]
fn identical_pages_are_the_same() {
    let a = gray(2, 2, &[0, 50, 100, 255]);
    assert!(matches!(compare_page(1, &a, &a, 8).unwrap(), PageComparison::Same));
}

#[test]
fn differences_within_the_tolerance_are_ignored() {
    let a = gray(2, 2, &[0, 50, 100, 255]);
    let b = gray(2, 2, &[8, 42, 100, 247]);
    assert!(matches!(compare_page(1, &a, &b, 8).unwrap(), PageComparison::Same));
}

#[test]
fn pixels_beyond_the_tolerance_are_counted_and_marked() {
    let a = gray(2, 2, &[0, 50, 100, 255]);
    let b = gray(2, 2, &[9, 50, 0, 255]);
    match compare_page(3, &a, &b, 8).unwrap() {
        PageComparison::Differs { differing, total, width, height, diff } => {
            assert_eq!((differing, total, width, height), (2, 4, 2, 2));
            assert_eq!(diff, vec![255, 0, 255, 0]);
        },
        PageComparison::Same => panic!("expected a difference"),
    }
}

#[test]
fn pages_of_different_sizes_cannot_be_compared() {
    let a = gray(2, 2, &[0, 0, 0, 0]);
    let b = gray(1, 2, &[0, 0]);
    match compare_page(2, &a, &b, 8) {
        Err(SnapshotError::Decode(m)) => assert_eq!(m, "page 2: reference is 2x2, rendered is 1x2 \u{2014} DPI mismatch?"),
        _ => panic!("expected a size mismatch"),
    }
}

#[test]
fn garbage_is_a_decode_error() {
    assert!(matches!(compare_page(1, b"not a png", b"not a png", 8), Err(SnapshotError::Decode(_))));
}

#[test]
fn snapshot_messages_read_as_before() {
    assert_eq!(
        SnapshotError::PageCountMismatch { expected: 3, actual: 2 }.message(),
        "expected 3 page(s) (reference), rendered 2"
    );
    assert_eq!(
        SnapshotError::Mismatch {
            page: 1,
            reference_path: "a.png".to_string(),
            diff_path: "a.diff.png".to_string(),
            differing_pixels: 5,
            total_pixels: 100
        }
        .message(),
        "page 1 doesn't match a.png \u{2014} 5/100 pixels differ beyond tolerance; diff image written to a.diff.png"
    );
    assert_eq!(reference_file_name("invoice", 2), "invoice-2.png");
}
