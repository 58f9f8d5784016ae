use lwpdf::pdf::num::fmt_milli;
use lwpdf::pdf::writer::{PdfWriter, Ref};

fn find(hay: &[u8], needle: &[u8]) -> Option<usize> {
    hay.windows(needle.len()).position(|w| w == needle)
}

#[test]
fn produces_a_minimal_valid_structure() {
    let mut w = PdfWriter::new();
    let catalog = w.allocate();
    let pages = w.allocate();
    w.object(pages, "<< /Type /Pages /Kids [] /Count 0 >>");
    w.object(catalog, &format!("<< /Type /Catalog /Pages {} >>", pages.write()));
    let bytes = w.finish(catalog, None);
    let text = String::from_utf8_lossy(&bytes);
    assert!(text.starts_with("%PDF-1.7"));
    assert!(text.contains("trailer"));
    assert!(text.contains("startxref"));
    assert!(text.ends_with("%%EOF"));
}

#[test]
fn ref_writes_an_indirect_reference() {
    assert_eq!(Ref(7).write(), "7 0 R");
    assert_eq!(Ref(1234).write(), "1234 0 R");
}

#[test]
fn xref_entries_point_at_their_objects() {
    let mut w = PdfWriter::new();
    let a = w.allocate();
    let b = w.allocate();
    w.object(b, "(second)");
    w.object(a, "(first)");
    let bytes = w.finish(a, Some(b));
    let xref = find(&bytes, b"xref\n0 3\n").expect("xref header");
    let table = &bytes[xref..];
    let text = String::from_utf8_lossy(table);
    let lines: Vec<&str> = text.lines().collect();
    assert_eq!(lines[2], "0000000000 65535 f ");
    for (i, line) in lines[3..5].iter().enumerate() {
        let offset: usize = line[..10].parse().unwrap();
        let header = format!("{} 0 obj\n", i + 1);
        assert_eq!(&bytes[offset..offset + header.len()], header.as_bytes());
    }
    assert!(text.contains("/Size 3 /Root 1 0 R /Info 2 0 R /ID [<"));
    let startxref = find(&bytes, b"startxref\n").unwrap();
    let tail = String::from_utf8_lossy(&bytes[startxref + 10..]);
    assert_eq!(tail, format!("{}\n%%EOF", xref));
}

#[test]
fn stream_dictionary_carries_the_length_and_extra_entries() {
    let mut w = PdfWriter::new();
    let s = w.allocate();
    w.stream(s, "/Length1 3", b"abc");
    let bytes = w.finish(s, None);
    let text = String::from_utf8_lossy(&bytes);
    assert!(text.contains("1 0 obj\n<< /Length 3 /Length1 3 >>\nstream\nabc\nendstream\nendobj\n"));
}

#[test]
fn compressed_stream_is_zlib_and_flate_decoded() {
    let mut w = PdfWriter::new();
    let s = w.allocate();
    let data = vec![b'x'; 1000];
    w.compressed_stream(s, "", &data);
    let bytes = w.finish(s, None);
    let text = String::from_utf8_lossy(&bytes);
    assert!(text.contains("/Filter /FlateDecode"));
    let start = find(&bytes, b"stream\n").unwrap() + 7;
    let end = find(&bytes, b"\nendstream").unwrap();
    let body = &bytes[start..end];
    assert!(body.len() < data.len());
    assert_eq!(miniz_oxide::inflate::decompress_to_vec_zlib(body).unwrap(), data);
}

#[test]
fn document_id_is_deterministic() {
    let build = || {
        let mut w = PdfWriter::new();
        let c = w.allocate();
        w.object(c, "<< /Type /Catalog >>");
        w.finish(c, None)
    };
    let a = build();
    let b = build();
    assert_eq!(a, b);
    let text = String::from_utf8_lossy(&a);
    let id_start = text.find("/ID [<").unwrap() + 6;
    let id = &text[id_start..id_start + 32];
    assert!(id.chars().all(|c| c.is_ascii_hexdigit() && !c.is_ascii_uppercase()));
}

#[test]
fn fixed_point_numbers_are_compact() {
    assert_eq!(fmt_milli(12000), "12");
    assert_eq!(fmt_milli(12500), "12.5");
    assert_eq!(fmt_milli(0), "0");
    assert_eq!(fmt_milli(-3141), "-3.141");
    assert_eq!(fmt_milli(-500), "-0.5");
    assert_eq!(fmt_milli(707), "0.707");
    assert_eq!(fmt_milli(1010), "1.01");
}

#[test]
fn ids_count_up_from_one_and_never_repeat() {
    let mut w = lwpdf::pdf::writer::PdfWriter::new();
    let a = w.allocate();
    w.object(a, "<< >>");
    let b = w.allocate();
    w.stream(b, "", b"data");
    let c = w.allocate();
    assert_eq!((a.0, b.0, c.0), (1, 2, 3));
    assert_eq!(w.next_object_id(), 4);
}
