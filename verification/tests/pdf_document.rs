use lwpdf::pdf::doc::{ColorSpace, ImageDataFilter, ImageXObject};
use lwpdf::pdf::document::PdfDocument;
use lwpdf::pdf::font_objects::CidFont;
use lwpdf::pdf::outline::PdfOutlineNode;
use lwpdf::pdf::pages::{PdfLinkAction, PdfLinkAnnotation, PdfPage};

fn tiny_font() -> CidFont {
    CidFont {
        base_font: "Test".to_string(),
        subset_bytes: vec![0u8; 16],
        widths: vec![0, 600_000],
        ascent: 800_000,
        descent: -200_000,
        cap_height: 700_000,
        italic_angle: 0,
        bbox: (-100_000, -200_000, 900_000, 900_000),
        is_italic: false,
        is_bold: false,
        to_unicode: vec![(1, 'H')],
    }
}

fn blank_page(width: i64, height: i64) -> PdfPage {
    PdfPage { width, height, content: Vec::new(), annotations: Vec::new() }
}

fn find(hay: &[u8], needle: &[u8]) -> Option<usize> {
    hay.windows(needle.len()).position(|w| w == needle)
}

/// Every `stream\n...\nendstream` payload, inflated when it is a zlib
/// stream, joined by newlines.
fn stream_bodies_decoded(bytes: &[u8]) -> String {
    const START: &[u8] = b"stream\n";
    const END: &[u8] = b"\nendstream";
    let mut bodies = Vec::new();
    let mut i = 0;
    while let Some(start_rel) = find(&bytes[i..], START) {
        let start = i + start_rel + START.len();
        let end_rel = match find(&bytes[start..], END) {
            Some(e) => e,
            None => break,
        };
        let end = start + end_rel;
        bodies.push(&bytes[start..end]);
        i = end + END.len();
    }
    bodies
        .into_iter()
        .map(|b| match miniz_oxide::inflate::decompress_to_vec_zlib(b) {
            Ok(v) => String::from_utf8_lossy(&v).into_owned(),
            Err(_) => String::new(),
        })
        .collect::<Vec<_>>()
        .join("\n")
}

#[test]
fn writes_a_single_empty_page() {
    let mut doc = PdfDocument::new();
    doc.add_page(blank_page(595_000, 842_000));
    let bytes = doc.write();
    let text = String::from_utf8_lossy(&bytes);
    assert!(text.contains("/Type /Page"));
    assert!(text.contains("/MediaBox [0 0 595 842]"));
    assert!(text.contains("%%EOF"));
}

#[test]
fn writes_a_goto_destination_for_an_internal_link_annotation() {
    let mut doc = PdfDocument::new();
    doc.add_page(PdfPage {
        width: 595_000,
        height: 842_000,
        content: Vec::new(),
        annotations: vec![PdfLinkAnnotation {
            rect: (10_000, 20_000, 100_000, 40_000),
            action: PdfLinkAction::GoTo { page_index: 1, y: 700_000 },
        }],
    });
    doc.add_page(blank_page(595_000, 842_000));
    let bytes = doc.write();
    let text = String::from_utf8_lossy(&bytes);
    assert!(text.contains("/Subtype /Link"));
    assert!(text.contains("/Dest ["));
    assert!(text.contains("/XYZ null 700 null"));
    assert!(!text.contains("/S /URI"), "a GoTo annotation must not also emit a URI action");
}

#[test]
fn writes_type0_cid_font_structure() {
    let mut doc = PdfDocument::new();
    doc.add_font(tiny_font());
    doc.add_page(blank_page(595_000, 842_000));
    let bytes = doc.write();
    let text = String::from_utf8_lossy(&bytes);
    assert!(text.contains("/Subtype /Type0"));
    assert!(text.contains("/Encoding /Identity-H"));
    assert!(text.contains("/Subtype /CIDFontType2"));
    assert!(text.contains("/CIDToGIDMap /Identity"));
    assert!(text.contains("/ToUnicode"));
    let decoded = stream_bodies_decoded(&bytes);
    assert!(decoded.contains("beginbfchar"));
    assert!(decoded.contains("<0001> <0048>"));
}

#[test]
fn writes_image_xobject_with_smask() {
    let mut doc = PdfDocument::new();
    doc.add_image(ImageXObject {
        width_px: 4,
        height_px: 4,
        color_space: ColorSpace::DeviceRgb,
        bits_per_component: 8,
        filter: ImageDataFilter::Raw,
        bytes: vec![0u8; 4 * 4 * 3],
        smask: Some(Box::new(ImageXObject {
            width_px: 4,
            height_px: 4,
            color_space: ColorSpace::DeviceGray,
            bits_per_component: 8,
            filter: ImageDataFilter::Raw,
            bytes: vec![255u8; 4 * 4],
            smask: None,
        })),
    });
    doc.add_page(blank_page(200_000, 200_000));
    let bytes = doc.write();
    let text = String::from_utf8_lossy(&bytes);
    assert!(text.contains("/Subtype /Image"));
    assert!(text.contains("/ColorSpace /DeviceRGB"));
    assert!(text.contains("/ColorSpace /DeviceGray"));
    assert!(text.contains("/SMask"));
    assert!(text.contains("/XObject << /Im1"));
}

#[test]
fn writes_jpeg_image_with_dct_decode_filter() {
    let mut doc = PdfDocument::new();
    doc.add_image(ImageXObject {
        width_px: 10,
        height_px: 10,
        color_space: ColorSpace::DeviceRgb,
        bits_per_component: 8,
        filter: ImageDataFilter::DctDecode,
        bytes: vec![0xFF, 0xD8, 0xFF, 0xD9],
        smask: None,
    });
    doc.add_page(blank_page(200_000, 200_000));
    let bytes = doc.write();
    let text = String::from_utf8_lossy(&bytes);
    assert!(text.contains("/Filter /DCTDecode"));
}

#[test]
fn empty_document_has_catalog_tree_and_info_in_fixed_places() {
    let doc = PdfDocument::new();
    let bytes = doc.write();
    let text = String::from_utf8_lossy(&bytes);
    assert!(text.starts_with("%PDF-1.7\n"));
    assert!(text.contains("2 0 obj\n<< /Type /Pages /Kids [] /Count 0 >>\nendobj\n"));
    assert!(text.contains("1 0 obj\n<< /Type /Catalog /Pages 2 0 R >>\nendobj\n"));
    assert!(text.contains("3 0 obj\n<< /Producer (lwpdf 0.1.0) >>\nendobj\n"));
    assert!(text.contains("trailer\n<< /Size 4 /Root 1 0 R /Info 3 0 R /ID [<"));
    assert!(!text.contains("/Outlines"));
}

#[test]
fn every_xref_entry_points_at_its_object() {
    let mut doc = PdfDocument::new();
    doc.add_font(tiny_font());
    doc.add_page(blank_page(595_000, 842_000));
    doc.add_page(blank_page(595_000, 842_000));
    doc.outline = vec![PdfOutlineNode { title: "Intro".to_string(), page_index: 1, y: 500_000, children: Vec::new() }];
    let bytes = doc.write();
    let xref = find(&bytes, b"xref\n0 ").unwrap();
    let text = String::from_utf8_lossy(&bytes[xref..]).into_owned();
    let mut lines = text.lines();
    lines.next();
    let count: usize = lines.next().unwrap().split(' ').nth(1).unwrap().parse().unwrap();
    lines.next();
    for id in 1..count {
        let line = lines.next().unwrap();
        let off: usize = line[..10].parse().unwrap();
        let header = format!("{} 0 obj\n", id);
        assert_eq!(&bytes[off..off + header.len()], header.as_bytes(), "object {}", id);
    }
    let text = String::from_utf8_lossy(&bytes);
    assert!(text.contains("/Outlines"));
    assert!(text.contains("/Title (Intro)"));
}

#[test]
fn metadata_fields_appear_in_the_info_dictionary() {
    let mut doc = PdfDocument::new();
    doc.metadata.title = Some("Invoice (draft)".to_string());
    doc.metadata.author = Some("ACME".to_string());
    let bytes = doc.write();
    let text = String::from_utf8_lossy(&bytes);
    assert!(text.contains("<< /Title (Invoice \\(draft\\)) /Author (ACME) /Producer (lwpdf 0.1.0) >>"));
}

#[test]
fn resource_names_count_from_one() {
    assert_eq!(PdfDocument::font_resource_name(0), "F1");
    assert_eq!(PdfDocument::image_resource_name(2), "Im3");
}
